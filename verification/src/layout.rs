//! Where things lie: the files and directories of a repository, the search
//! for the repository that holds a path, and the paths that an argument of
//! `add` or `rm` stands for.

use crate::bytes::{append, copy, copy_range, lemma_last_position, same_bytes};
use crate::path::{
    file_name, join, joined, lemma_parent_cut, name_of, parent, parent_of, root_len,
};
use crate::error::Error;
use crate::stage::{is_repository_dir, names_repository_dir, repository_dir_name};
use vstd::prelude::*;
use vstd::slice::slice_subrange;

verus! {

/// The name of the directory of the objects: `objects`.
pub open spec fn objects_name() -> Seq<u8> {
    seq![0x6fu8, 0x62, 0x6a, 0x65, 0x63, 0x74, 0x73]
}

/// The name of the directory of the references: `refs`.
pub open spec fn refs_name() -> Seq<u8> {
    seq![0x72u8, 0x65, 0x66, 0x73]
}

/// The name of the directory of the branches: `heads`.
pub open spec fn heads_name() -> Seq<u8> {
    seq![0x68u8, 0x65, 0x61, 0x64, 0x73]
}

/// The name of the file of the index: `index`.
pub open spec fn index_name() -> Seq<u8> {
    seq![0x69u8, 0x6e, 0x64, 0x65, 0x78]
}

/// The name of the file that tells which branch is checked out: `HEAD`.
pub open spec fn head_name() -> Seq<u8> {
    seq![0x48u8, 0x45, 0x41, 0x44]
}

/// The paths of a repository.
#[derive(Clone, PartialEq, Eq, Debug)]
pub struct Layout {
    /// The directory that holds the repository, `.minigit`.
    pub repository: Vec<u8>,
    /// The directory of the objects, `objects` in the repository.
    pub objects: Vec<u8>,
    /// The directory of the branches, `refs/heads` in the repository.
    pub heads: Vec<u8>,
    /// The file of the index, `index` in the repository.
    pub index: Vec<u8>,
    /// The file `HEAD` in the repository.
    pub head: Vec<u8>,
}

/// Lays out the repository that `repository` holds.
pub fn layout(repository: &[u8], sep: u8) -> (paths: Layout)
    ensures
        paths.repository@ == repository@,
        paths.objects@ == joined(repository@, objects_name(), sep),
        paths.heads@ == joined(joined(repository@, refs_name(), sep), heads_name(), sep),
        paths.index@ == joined(repository@, index_name(), sep),
        paths.head@ == joined(repository@, head_name(), sep),
{
    let objects: [u8; 7] = [0x6f, 0x62, 0x6a, 0x65, 0x63, 0x74, 0x73];
    let refs: [u8; 4] = [0x72, 0x65, 0x66, 0x73];
    let heads: [u8; 5] = [0x68, 0x65, 0x61, 0x64, 0x73];
    let index: [u8; 5] = [0x69, 0x6e, 0x64, 0x65, 0x78];
    let head: [u8; 4] = [0x48, 0x45, 0x41, 0x44];
    assert(objects@ =~= objects_name());
    assert(refs@ =~= refs_name());
    assert(heads@ =~= heads_name());
    assert(index@ =~= index_name());
    assert(head@ =~= head_name());
    let refs_dir = join(repository, refs.as_slice(), sep);
    Layout {
        repository: copy(repository),
        objects: join(repository, objects.as_slice(), sep),
        heads: join(refs_dir.as_slice(), heads.as_slice(), sep),
        index: join(repository, index.as_slice(), sep),
        head: join(repository, head.as_slice(), sep),
    }
}

/// Lays out the repository named `name` in the directory `dir`: it is
/// held by `.minigit` in `name` in `dir`.
pub fn init(dir: &[u8], name: &[u8], sep: u8) -> (paths: Layout)
    ensures
        paths.repository@ == joined(joined(dir@, name@, sep), repository_dir_name(), sep),
        paths.objects@ == joined(paths.repository@, objects_name(), sep),
        paths.heads@ == joined(joined(paths.repository@, refs_name(), sep), heads_name(), sep),
        paths.index@ == joined(paths.repository@, index_name(), sep),
        paths.head@ == joined(paths.repository@, head_name(), sep),
{
    let minigit: [u8; 8] = [0x2e, 0x6d, 0x69, 0x6e, 0x69, 0x67, 0x69, 0x74];
    assert(minigit@ =~= repository_dir_name());
    let work = join(dir, name, sep);
    let repository = join(work.as_slice(), minigit.as_slice(), sep);
    layout(repository.as_slice(), sep)
}

/// The file of the object with the fingerprint `key`, from the directory
/// of the objects: a directory named by the first two digits, and in it a
/// file named by the others.
pub open spec fn object_path(key: Seq<u8>, sep: u8) -> Seq<u8> {
    key.take(2) + seq![sep] + key.skip(2)
}

/// The directory that the object with the fingerprint `key` lies in, from
/// the directory of the objects.
pub fn object_dir(key: &[u8]) -> (dir: Vec<u8>)
    requires
        key@.len() >= 2,
    ensures
        dir@ == key@.take(2),
{
    copy_range(key, 0, 2)
}

/// The file of the object with the fingerprint `key`, from the directory
/// of the objects.
pub fn object_file(key: &[u8], sep: u8) -> (path: Vec<u8>)
    requires
        key@.len() >= 2,
    ensures
        path@ == object_path(key@, sep),
{
    let mut path = copy_range(key, 0, 2);
    path.push(sep);
    append(&mut path, slice_subrange(key, 2, key.len()));
    assert(path@ =~= object_path(key@, sep));
    path
}

/// A step of the search for the repository that holds a path.
#[derive(Clone, PartialEq, Eq, Debug)]
pub enum Search {
    /// The directory looked at holds the repository, at this path.
    Found(Vec<u8>),
    /// It holds none; this directory, the one above it, is next.
    Up(Vec<u8>),
}

/// The first of `entries` that names the directory of a repository, or the
/// number of entries if none does.
pub open spec fn repository_among(entries: Seq<Seq<u8>>, sep: u8) -> int
    decreases entries.len(),
{
    if entries.len() == 0 {
        0
    } else if is_repository_dir(entries.first(), sep) {
        0
    } else {
        1 + repository_among(entries.drop_first(), sep)
    }
}

proof fn lemma_repository_among(entries: Seq<Seq<u8>>, sep: u8, k: int)
    requires
        0 <= k <= entries.len(),
        k < entries.len() ==> is_repository_dir(entries[k], sep),
        forall|j: int| 0 <= j < k ==> !is_repository_dir(#[trigger] entries[j], sep),
    ensures
        repository_among(entries, sep) == k,
    decreases entries.len(),
{
    if entries.len() > 0 && k > 0 {
        assert(!is_repository_dir(entries[0], sep));
        let rest = entries.drop_first();
        assert forall|j: int| 0 <= j < k - 1 implies !is_repository_dir(
            #[trigger] rest[j],
            sep,
        ) by {
            assert(rest[j] == entries[j + 1]);
        }
        lemma_repository_among(rest, sep, k - 1);
    }
}

/// Looks for the repository in the directory `dir`, whose entries have the
/// paths `entries`. The first entry named `.minigit` is the repository.
/// If there is none, the search goes on in the directory that holds `dir`,
/// up to the root, and fails with `RepositoryNotFound` only where `dir` is
/// the root itself or empty.
pub fn find_minigit(dir: &[u8], entries: &Vec<Vec<u8>>, sep: u8) -> (step: Result<Search, Error>)
    ensures
        match step {
            Ok(Search::Found(path)) => repository_among(
                entries@.map_values(|e: Vec<u8>| e@),
                sep,
            ) < entries@.len() && path@ == entries@[repository_among(
                entries@.map_values(|e: Vec<u8>| e@),
                sep,
            )]@,
            Ok(Search::Up(up)) => repository_among(entries@.map_values(|e: Vec<u8>| e@), sep)
                == entries@.len() && parent_of(dir@, sep) == Some(up@),
            Err(e) => e == Error::RepositoryNotFound && repository_among(
                entries@.map_values(|e: Vec<u8>| e@),
                sep,
            ) == entries@.len() && parent_of(dir@, sep) is None,
        },
{
    let ghost all = entries@.map_values(|e: Vec<u8>| e@);
    let mut i: usize = 0;
    while i < entries.len()
        invariant
            i <= entries@.len(),
            all == entries@.map_values(|e: Vec<u8>| e@),
            forall|j: int| 0 <= j < i ==> !is_repository_dir(#[trigger] all[j], sep),
        decreases entries@.len() - i,
    {
        if names_repository_dir(entries[i].as_slice(), sep) {
            proof {
                assert(all[i as int] == entries@[i as int]@);
                lemma_repository_among(all, sep, i as int);
            }
            return Ok(Search::Found(copy(entries[i].as_slice())));
        }
        assert(all[i as int] == entries@[i as int]@);
        i += 1;
    }
    proof {
        lemma_repository_among(all, sep, i as int);
    }
    match parent(dir, sep) {
        Some(up) => Ok(Search::Up(up)),
        None => Err(Error::RepositoryNotFound),
    }
}

/// What an argument of `add` or `rm` stands for.
#[derive(Clone, PartialEq, Eq, Debug)]
pub enum Target {
    /// The file or directory at this path.
    Single(Vec<u8>),
    /// Every entry of the directory at this path.
    Entries(Vec<u8>),
}

/// The byte `.`, which at the end of an argument stands for `*`.
pub const DOT: u8 = 0x2e;

/// The byte `*`, which as a name stands for every entry of a directory.
pub const STAR: u8 = 0x2a;

/// The argument with a `.` at its end turned into `*`.
pub open spec fn starred(arg: Seq<u8>) -> Seq<u8> {
    if arg.len() > 0 && arg.last() == DOT {
        arg.drop_last().push(STAR)
    } else {
        arg
    }
}

/// Finds what the argument `arg`, given in the directory `dir`, stands
/// for. A `.` at its end counts as `*`, and the argument is taken from
/// `dir` unless it starts at a root. A path whose name is `*` stands for
/// every entry of the directory before the name, any other path for
/// itself. A path without a name is refused with `InvalidPath`.
pub fn resolve(dir: &[u8], arg: &[u8], sep: u8) -> (target: Result<Target, Error>)
    ensures
        ({
            let path = joined(dir@, starred(arg@), sep);
            match target {
                Ok(Target::Entries(d)) => name_of(path, sep) == seq![STAR] && parent_of(path, sep)
                    == Some(d@),
                Ok(Target::Single(p)) => name_of(path, sep).len() > 0 && name_of(path, sep)
                    != seq![STAR] && p@ == path,
                Err(e) => e == Error::InvalidPath && name_of(path, sep).len() == 0,
            }
        }),
{
    let mut word = copy(arg);
    if word.len() > 0 && word[word.len() - 1] == DOT {
        word.pop();
        word.push(STAR);
        assert(word@ =~= starred(arg@));
    }
    let path = join(dir, word.as_slice(), sep);
    let name = file_name(path.as_slice(), sep);
    if name.len() == 0 {
        return Err(Error::InvalidPath);
    }
    let star: [u8; 1] = [STAR];
    assert(star@ =~= seq![STAR]);
    proof {
        lemma_parent_cut(path@, sep);
        lemma_last_position(path@, sep);
        assert(path@.len() > root_len(path@, sep));
    }
    if same_bytes(name.as_slice(), star.as_slice()) {
        match parent(path.as_slice(), sep) {
            Some(d) => Ok(Target::Entries(d)),
            None => Err(Error::InvalidPath),
        }
    } else {
        Ok(Target::Single(path))
    }
}

} // verus!
