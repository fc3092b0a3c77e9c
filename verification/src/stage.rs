//! Staging: what `add` and `rm` do to the index and the object store once
//! the working tree has been read.

use crate::assemble::{lemma_saved_node_sorted, save_tree, saved_node, Node};
use crate::bytes::same_bytes;
use crate::error::Error;
use crate::digest::{fingerprint_of, hashable, lemma_fingerprint_is_hash, HASH_INPUT_LIMIT};
use crate::index::{lookup, removed, sorted_by_path, Index, Kind, RecordView};
use crate::path::{file_name, name_of};
use crate::propagate::{
    leaves_root, lemma_walk_comes_through, lemma_walk_consistent, on_walk, propagated,
    tree_record, updata_index, walk_bound, Walk,
};
use crate::store::{holds, ObjectStore, ObjectView};
use crate::tree::{lemma_upserted_bound, tree_payload};
use vstd::prelude::*;

verus! {

/// The name of the directory that holds a repository: `.minigit`.
pub open spec fn repository_dir_name() -> Seq<u8> {
    seq![0x2eu8, 0x6d, 0x69, 0x6e, 0x69, 0x67, 0x69, 0x74]
}

/// Whether `path` names the directory that holds a repository, which is
/// never staged.
pub open spec fn is_repository_dir(path: Seq<u8>, sep: u8) -> bool {
    name_of(path, sep) == repository_dir_name()
}

/// Tests whether `path` names the directory that holds a repository.
pub fn names_repository_dir(path: &[u8], sep: u8) -> (yes: bool)
    ensures
        yes == is_repository_dir(path@, sep),
{
    let name = file_name(path, sep);
    let dir: [u8; 8] = [0x2e, 0x6d, 0x69, 0x6e, 0x69, 0x67, 0x69, 0x74];
    assert(dir@ =~= repository_dir_name());
    same_bytes(name.as_slice(), dir.as_slice())
}

/// Staging one file or directory: it is saved with all that it holds, and
/// then the trees above it are brought in line. The directory of the
/// repository itself is passed over.
pub open spec fn object_saved(
    index: Seq<RecordView>,
    objects: Seq<ObjectView>,
    node: Node,
    root: Seq<u8>,
    sep: u8,
) -> Walk {
    if node is Tree && is_repository_dir(node.spec_path(), sep) {
        Walk { index, objects, outcome: Ok(()) }
    } else {
        let saved = saved_node(index, objects, node, sep);
        match saved.outcome {
            Ok(_) => propagated(saved.index, saved.objects, node.spec_path(), root, sep),
            Err(e) => Walk { index: saved.index, objects: saved.objects, outcome: Err(e) },
        }
    }
}

/// Staging the files and directories `nodes` one after the other, up to
/// the first that fails.
pub open spec fn added(
    index: Seq<RecordView>,
    objects: Seq<ObjectView>,
    nodes: Seq<Node>,
    root: Seq<u8>,
    sep: u8,
) -> Walk
    decreases nodes.len(),
{
    if nodes.len() == 0 {
        Walk { index, objects, outcome: Ok(()) }
    } else {
        let first = object_saved(index, objects, nodes.first(), root, sep);
        match first.outcome {
            Ok(_) => added(first.index, first.objects, nodes.drop_first(), root, sep),
            Err(_) => first,
        }
    }
}

/// Taking the record of `path` out of the index and bringing the trees
/// above it in line.
pub open spec fn index_removed(
    index: Seq<RecordView>,
    objects: Seq<ObjectView>,
    path: Seq<u8>,
    root: Seq<u8>,
    sep: u8,
) -> Walk {
    propagated(removed(index, path), objects, path, root, sep)
}

/// Taking the records of `paths` out of the index one after the other, each
/// followed by its walk, up to the first that fails.
pub open spec fn tree_removed(
    index: Seq<RecordView>,
    objects: Seq<ObjectView>,
    paths: Seq<Seq<u8>>,
    root: Seq<u8>,
    sep: u8,
) -> Walk
    decreases paths.len(),
{
    if paths.len() == 0 {
        Walk { index, objects, outcome: Ok(()) }
    } else {
        let first = index_removed(index, objects, paths.first(), root, sep);
        match first.outcome {
            Ok(_) => tree_removed(first.index, first.objects, paths.drop_first(), root, sep),
            Err(_) => first,
        }
    }
}

/// A file or directory that was deleted from the working tree: its path,
/// whether it was a directory, and the paths of all that was deleted
/// below it, each directory behind what it held.
pub struct Removal {
    pub path: Vec<u8>,
    pub is_dir: bool,
    pub below: Vec<Vec<u8>>,
}

/// A removal as a mathematical value.
pub struct RemovalView {
    pub path: Seq<u8>,
    pub is_dir: bool,
    pub below: Seq<Seq<u8>>,
}

impl View for Removal {
    type V = RemovalView;

    open spec fn view(&self) -> RemovalView {
        RemovalView {
            path: self.path@,
            is_dir: self.is_dir,
            below: self.below@.map_values(|p: Vec<u8>| p@),
        }
    }
}

/// Unstaging one deleted file or directory: the records of all that was
/// below it go, then its own, each followed by its walk, and the trees
/// above it are brought in line once more. The directory of the repository
/// itself is passed over.
pub open spec fn object_removed(
    index: Seq<RecordView>,
    objects: Seq<ObjectView>,
    removal: RemovalView,
    root: Seq<u8>,
    sep: u8,
) -> Walk {
    if removal.is_dir && is_repository_dir(removal.path, sep) {
        Walk { index, objects, outcome: Ok(()) }
    } else {
        let below = tree_removed(index, objects, removal.below.push(removal.path), root, sep);
        match below.outcome {
            Ok(_) => propagated(below.index, below.objects, removal.path, root, sep),
            Err(_) => below,
        }
    }
}

/// Unstaging the deleted files and directories `removals` one after the
/// other, up to the first that fails.
pub open spec fn removed_all(
    index: Seq<RecordView>,
    objects: Seq<ObjectView>,
    removals: Seq<RemovalView>,
    root: Seq<u8>,
    sep: u8,
) -> Walk
    decreases removals.len(),
{
    if removals.len() == 0 {
        Walk { index, objects, outcome: Ok(()) }
    } else {
        let first = object_removed(index, objects, removals.first(), root, sep);
        match first.outcome {
            Ok(_) => removed_all(first.index, first.objects, removals.drop_first(), root, sep),
            Err(_) => first,
        }
    }
}

/// After a file or directory was staged, the index holds a tree record for
/// every directory above it, up to the root, and the hash of each is the
/// fingerprint of the tree object that lists the children the directory
/// has in the index; the store holds an object under that fingerprint.
pub proof fn lemma_staged_in_line(
    index: Seq<RecordView>,
    objects: Seq<ObjectView>,
    node: Node,
    root: Seq<u8>,
    sep: u8,
    dir: Seq<u8>,
)
    requires
        sorted_by_path(index),
        !(node is Tree && is_repository_dir(node.spec_path(), sep)),
        object_saved(index, objects, node, root, sep).outcome is Ok,
        on_walk(dir, node.spec_path(), root, sep),
    ensures
        lookup(object_saved(index, objects, node, root, sep).index, dir) == Some(
            tree_record(
                dir,
                fingerprint_of(
                    tree_payload(object_saved(index, objects, node, root, sep).index, dir, sep),
                ),
            ),
        ),
        holds(
            object_saved(index, objects, node, root, sep).objects,
            fingerprint_of(
                tree_payload(object_saved(index, objects, node, root, sep).index, dir, sep),
            ),
        ),
{
    let saved = saved_node(index, objects, node, sep);
    lemma_saved_node_sorted(index, objects, node, sep);
    lemma_walk_consistent(saved.index, saved.objects, node.spec_path(), root, sep, dir);
}

/// When staging a file is owed to come through: if its blob can be
/// hashed, the walk from it leaves the root, and the index and the path
/// are small enough for every listing on the way to be hashed.
pub proof fn lemma_staged_file_comes_through(
    index: Seq<RecordView>,
    objects: Seq<ObjectView>,
    node: Node,
    root: Seq<u8>,
    sep: u8,
)
    requires
        node is Blob,
        hashable(node->payload@),
        leaves_root(node.spec_path(), root, sep),
        walk_bound(index, node.spec_path()) + node.spec_path().len() + 47 < HASH_INPUT_LIMIT,
    ensures
        object_saved(index, objects, node, root, sep).outcome is Ok,
{
    let payload = node->payload@;
    let record = RecordView {
        path: node.spec_path(),
        kind: Kind::Blob,
        hash: fingerprint_of(payload),
    };
    lemma_fingerprint_is_hash(payload);
    lemma_upserted_bound(index, record);
    let saved = saved_node(index, objects, node, sep);
    lemma_walk_comes_through(saved.index, saved.objects, node.spec_path(), root, sep);
}

/// Stages one file or directory that was read from the working tree.
pub fn save_object(
    node: &Node,
    index: &mut Index,
    store: &mut ObjectStore,
    root: &[u8],
    sep: u8,
) -> (outcome: Result<(), Error>)
    requires
        old(index).wf(),
        old(store).wf(),
    ensures
        final(index).wf(),
        final(store).wf(),
        final(index)@ == object_saved(old(index)@, old(store)@, *node, root@, sep).index,
        final(store)@ == object_saved(old(index)@, old(store)@, *node, root@, sep).objects,
        outcome == object_saved(old(index)@, old(store)@, *node, root@, sep).outcome,
{
    let skip = match node {
        Node::Tree { path, .. } => names_repository_dir(path.as_slice(), sep),
        Node::Blob { .. } => false,
    };
    if skip {
        return Ok(());
    }
    match save_tree(node, index, store, sep) {
        Ok(_) => updata_index(index, store, node.path().as_slice(), root, sep),
        Err(e) => Err(e),
    }
}

/// Stages the files and directories that were read from the working tree,
/// one after the other. Stops at the first that fails; what was staged
/// until then stays.
pub fn add(
    nodes: &Vec<Node>,
    index: &mut Index,
    store: &mut ObjectStore,
    root: &[u8],
    sep: u8,
) -> (outcome: Result<(), Error>)
    requires
        old(index).wf(),
        old(store).wf(),
    ensures
        final(index).wf(),
        final(store).wf(),
        final(index)@ == added(old(index)@, old(store)@, nodes@, root@, sep).index,
        final(store)@ == added(old(index)@, old(store)@, nodes@, root@, sep).objects,
        outcome == added(old(index)@, old(store)@, nodes@, root@, sep).outcome,
{
    let ghost goal = added(index@, store@, nodes@, root@, sep);
    let mut i: usize = 0;
    assert(nodes@.skip(0) =~= nodes@);
    while i < nodes.len()
        invariant
            i <= nodes@.len(),
            index.wf(),
            store.wf(),
            added(index@, store@, nodes@.skip(i as int), root@, sep) == goal,
            goal == added(old(index)@, old(store)@, nodes@, root@, sep),
        decreases nodes@.len() - i,
    {
        proof {
            assert(nodes@.skip(i as int).first() == nodes@[i as int]);
            assert(nodes@.skip(i as int).drop_first() =~= nodes@.skip(i as int + 1));
        }
        match save_object(&nodes[i], index, store, root, sep) {
            Ok(_) => {},
            Err(e) => {
                return Err(e);
            },
        }
        i += 1;
    }
    Ok(())
}

/// Takes the record of `path` out of the index, if it has one, and brings
/// the trees above the path in line.
pub fn remove_index(
    index: &mut Index,
    store: &mut ObjectStore,
    path: &[u8],
    root: &[u8],
    sep: u8,
) -> (outcome: Result<(), Error>)
    requires
        old(index).wf(),
        old(store).wf(),
    ensures
        final(index).wf(),
        final(store).wf(),
        final(index)@ == index_removed(old(index)@, old(store)@, path@, root@, sep).index,
        final(store)@ == index_removed(old(index)@, old(store)@, path@, root@, sep).objects,
        outcome == index_removed(old(index)@, old(store)@, path@, root@, sep).outcome,
{
    index.remove(path);
    updata_index(index, store, path, root, sep)
}

/// Takes the records of `paths` out of the index, one after the other,
/// each with its walk. Stops at the first walk that fails.
pub fn remove_tree(
    paths: &Vec<Vec<u8>>,
    last: &[u8],
    index: &mut Index,
    store: &mut ObjectStore,
    root: &[u8],
    sep: u8,
) -> (outcome: Result<(), Error>)
    requires
        old(index).wf(),
        old(store).wf(),
    ensures
        final(index).wf(),
        final(store).wf(),
        final(index)@ == tree_removed(
            old(index)@,
            old(store)@,
            paths@.map_values(|p: Vec<u8>| p@).push(last@),
            root@,
            sep,
        ).index,
        final(store)@ == tree_removed(
            old(index)@,
            old(store)@,
            paths@.map_values(|p: Vec<u8>| p@).push(last@),
            root@,
            sep,
        ).objects,
        outcome == tree_removed(
            old(index)@,
            old(store)@,
            paths@.map_values(|p: Vec<u8>| p@).push(last@),
            root@,
            sep,
        ).outcome,
{
    let ghost all = paths@.map_values(|p: Vec<u8>| p@).push(last@);
    let ghost goal = tree_removed(index@, store@, all, root@, sep);
    let mut i: usize = 0;
    assert(all.skip(0) =~= all);
    while i < paths.len()
        invariant
            i <= paths@.len(),
            index.wf(),
            store.wf(),
            all == paths@.map_values(|p: Vec<u8>| p@).push(last@),
            tree_removed(index@, store@, all.skip(i as int), root@, sep) == goal,
            goal == tree_removed(old(index)@, old(store)@, all, root@, sep),
        decreases paths@.len() - i,
    {
        proof {
            assert(all.skip(i as int).first() == paths@[i as int]@);
            assert(all.skip(i as int).drop_first() =~= all.skip(i as int + 1));
        }
        match remove_index(index, store, paths[i].as_slice(), root, sep) {
            Ok(_) => {},
            Err(e) => {
                return Err(e);
            },
        }
        i += 1;
    }
    proof {
        let rest = all.skip(i as int);
        let first = index_removed(index@, store@, last@, root@, sep);
        assert(rest.first() == last@);
        assert(rest.drop_first().len() == 0);
        if first.outcome is Ok {
            assert(first.outcome->Ok_0 == ());
        }
        assert(tree_removed(first.index, first.objects, rest.drop_first(), root@, sep) == (Walk {
            index: first.index,
            objects: first.objects,
            outcome: Ok(()),
        }));
    }
    remove_index(index, store, last, root, sep)
}

/// Unstages one file or directory that was deleted from the working tree.
pub fn remove_object(
    removal: &Removal,
    index: &mut Index,
    store: &mut ObjectStore,
    root: &[u8],
    sep: u8,
) -> (outcome: Result<(), Error>)
    requires
        old(index).wf(),
        old(store).wf(),
    ensures
        final(index).wf(),
        final(store).wf(),
        final(index)@ == object_removed(old(index)@, old(store)@, removal@, root@, sep).index,
        final(store)@ == object_removed(old(index)@, old(store)@, removal@, root@, sep).objects,
        outcome == object_removed(old(index)@, old(store)@, removal@, root@, sep).outcome,
{
    if removal.is_dir && names_repository_dir(removal.path.as_slice(), sep) {
        return Ok(());
    }
    match remove_tree(&removal.below, removal.path.as_slice(), index, store, root, sep) {
        Ok(_) => updata_index(index, store, removal.path.as_slice(), root, sep),
        Err(e) => Err(e),
    }
}

/// Unstages the files and directories that were deleted from the working
/// tree, one after the other. Stops at the first that fails.
pub fn rm(
    removals: &Vec<Removal>,
    index: &mut Index,
    store: &mut ObjectStore,
    root: &[u8],
    sep: u8,
) -> (outcome: Result<(), Error>)
    requires
        old(index).wf(),
        old(store).wf(),
    ensures
        final(index).wf(),
        final(store).wf(),
        final(index)@ == removed_all(
            old(index)@,
            old(store)@,
            removals@.map_values(|r: Removal| r@),
            root@,
            sep,
        ).index,
        final(store)@ == removed_all(
            old(index)@,
            old(store)@,
            removals@.map_values(|r: Removal| r@),
            root@,
            sep,
        ).objects,
        outcome == removed_all(
            old(index)@,
            old(store)@,
            removals@.map_values(|r: Removal| r@),
            root@,
            sep,
        ).outcome,
{
    let ghost all = removals@.map_values(|r: Removal| r@);
    let ghost goal = removed_all(index@, store@, all, root@, sep);
    let mut i: usize = 0;
    assert(all.skip(0) =~= all);
    while i < removals.len()
        invariant
            i <= removals@.len(),
            index.wf(),
            store.wf(),
            all == removals@.map_values(|r: Removal| r@),
            removed_all(index@, store@, all.skip(i as int), root@, sep) == goal,
            goal == removed_all(old(index)@, old(store)@, all, root@, sep),
        decreases removals@.len() - i,
    {
        proof {
            assert(all.skip(i as int).first() == removals@[i as int]@);
            assert(all.skip(i as int).drop_first() =~= all.skip(i as int + 1));
        }
        match remove_object(&removals[i], index, store, root, sep) {
            Ok(_) => {},
            Err(e) => {
                return Err(e);
            },
        }
        i += 1;
    }
    Ok(())
}

} // verus!
