//! The tree assembler: a file or a directory, as it was read from the
//! working tree, is stored object by object and entered in the index.

use crate::bytes::copy;
use crate::digest::{hashable, fingerprint_of};
use crate::error::Error;
use crate::index::{
    lemma_upserted_sorted, sorted_by_path, upserted, Index, Kind, Record, RecordView,
};
use crate::path::file_name;
use crate::store::{stored, ObjectStore, ObjectView};
use crate::tree::{append_child_line, new_tree_payload, tree_object};
use vstd::prelude::*;

verus! {

/// A file or a directory as it was read from the working tree. A file
/// comes with the payload of its blob object, a directory with what it
/// holds, in the order in which it was listed.
pub enum Node {
    Blob { path: Vec<u8>, payload: Vec<u8> },
    Tree { path: Vec<u8>, children: Vec<Node> },
}

impl Node {
    /// The path of the file or directory.
    pub open spec fn spec_path(self) -> Seq<u8> {
        match self {
            Node::Blob { path, .. } => path@,
            Node::Tree { path, .. } => path@,
        }
    }

    /// The kind of object that stands for the file or directory.
    pub open spec fn spec_kind(self) -> Kind {
        match self {
            Node::Blob { .. } => Kind::Blob,
            Node::Tree { .. } => Kind::Tree,
        }
    }

    /// The path of the file or directory.
    pub fn path(&self) -> (path: &Vec<u8>)
        ensures
            path@ == self.spec_path(),
    {
        match self {
            Node::Blob { path, .. } => path,
            Node::Tree { path, .. } => path,
        }
    }

    /// The kind of object that stands for the file or directory.
    pub fn kind(&self) -> (kind: Kind)
        ensures
            kind == self.spec_kind(),
    {
        match self {
            Node::Blob { .. } => Kind::Blob,
            Node::Tree { .. } => Kind::Tree,
        }
    }
}

/// Where saving a file or directory ends: the index and the objects it
/// leaves behind, and the fingerprint of the object stored last, or why
/// it stopped.
pub struct Saved {
    pub index: Seq<RecordView>,
    pub objects: Seq<ObjectView>,
    pub outcome: Result<Seq<u8>, Error>,
}

/// Where saving the entries of a directory ends: the index and the objects
/// it leaves behind, and the records of the entries, or why it stopped.
pub struct Listed {
    pub index: Seq<RecordView>,
    pub objects: Seq<ObjectView>,
    pub outcome: Result<Seq<RecordView>, Error>,
}

/// Storing `payload` as the object of `path`: the payload goes to the
/// store and a record with its fingerprint to the index. A payload that
/// cannot be hashed changes nothing and gives `ObjectTooLarge`.
pub open spec fn saved_object(
    index: Seq<RecordView>,
    objects: Seq<ObjectView>,
    path: Seq<u8>,
    kind: Kind,
    payload: Seq<u8>,
) -> Saved {
    if hashable(payload) {
        Saved {
            index: upserted(index, RecordView { path, kind, hash: fingerprint_of(payload) }),
            objects: stored(objects, payload),
            outcome: Ok(fingerprint_of(payload)),
        }
    } else {
        Saved { index, objects, outcome: Err(Error::ObjectTooLarge) }
    }
}

/// Saving a file or a directory. A file is stored as its blob. Of a
/// directory the entries are saved first, one after the other, and then
/// the tree object that lists them; what was saved before a failure stays.
pub open spec fn saved_node(
    index: Seq<RecordView>,
    objects: Seq<ObjectView>,
    node: Node,
    sep: u8,
) -> Saved
    decreases node, 1nat,
{
    match node {
        Node::Blob { path, payload } => saved_object(index, objects, path@, Kind::Blob, payload@),
        Node::Tree { path, children } => {
            let listed = saved_nodes(index, objects, children@, sep);
            match listed.outcome {
                Ok(entries) => saved_object(
                    listed.index,
                    listed.objects,
                    path@,
                    Kind::Tree,
                    tree_object(entries, sep),
                ),
                Err(e) => Saved { index: listed.index, objects: listed.objects, outcome: Err(e) },
            }
        },
    }
}

/// Saving the entries `nodes` of a directory in their order, up to the
/// first that fails.
pub open spec fn saved_nodes(
    index: Seq<RecordView>,
    objects: Seq<ObjectView>,
    nodes: Seq<Node>,
    sep: u8,
) -> Listed
    decreases nodes, 0nat,
{
    if nodes.len() == 0 {
        Listed { index, objects, outcome: Ok(Seq::<RecordView>::empty()) }
    } else {
        let before = saved_nodes(index, objects, nodes.drop_last(), sep);
        match before.outcome {
            Ok(entries) => {
                let last = saved_node(before.index, before.objects, nodes.last(), sep);
                match last.outcome {
                    Ok(hash) => Listed {
                        index: last.index,
                        objects: last.objects,
                        outcome: Ok(
                            entries.push(
                                RecordView {
                                    path: nodes.last().spec_path(),
                                    kind: nodes.last().spec_kind(),
                                    hash,
                                },
                            ),
                        ),
                    },
                    Err(e) => Listed { index: last.index, objects: last.objects, outcome: Err(e) },
                }
            },
            Err(e) => before,
        }
    }
}

/// Saving a file or directory keeps the index sorted.
pub proof fn lemma_saved_node_sorted(
    index: Seq<RecordView>,
    objects: Seq<ObjectView>,
    node: Node,
    sep: u8,
)
    requires
        sorted_by_path(index),
    ensures
        sorted_by_path(saved_node(index, objects, node, sep).index),
    decreases node, 1nat,
{
    match node {
        Node::Blob { path, payload } => {
            lemma_upserted_sorted(
                index,
                RecordView { path: path@, kind: Kind::Blob, hash: fingerprint_of(payload@) },
            );
        },
        Node::Tree { path, children } => {
            let listed = saved_nodes(index, objects, children@, sep);
            lemma_saved_nodes_sorted(index, objects, children@, sep);
            if let Ok(entries) = listed.outcome {
                lemma_upserted_sorted(
                    listed.index,
                    RecordView {
                        path: path@,
                        kind: Kind::Tree,
                        hash: fingerprint_of(tree_object(entries, sep)),
                    },
                );
            }
        },
    }
}

/// Saving the entries of a directory keeps the index sorted.
pub proof fn lemma_saved_nodes_sorted(
    index: Seq<RecordView>,
    objects: Seq<ObjectView>,
    nodes: Seq<Node>,
    sep: u8,
)
    requires
        sorted_by_path(index),
    ensures
        sorted_by_path(saved_nodes(index, objects, nodes, sep).index),
    decreases nodes, 0nat,
{
    if nodes.len() > 0 {
        let before = saved_nodes(index, objects, nodes.drop_last(), sep);
        lemma_saved_nodes_sorted(index, objects, nodes.drop_last(), sep);
        if before.outcome is Ok {
            lemma_saved_node_sorted(before.index, before.objects, nodes.last(), sep);
        }
    }
}

/// Once an entry has failed, the entries behind it are not saved.
pub proof fn lemma_saved_nodes_stop(
    index: Seq<RecordView>,
    objects: Seq<ObjectView>,
    nodes: Seq<Node>,
    sep: u8,
    k: int,
)
    requires
        0 <= k <= nodes.len(),
        saved_nodes(index, objects, nodes.take(k), sep).outcome is Err,
    ensures
        saved_nodes(index, objects, nodes, sep) == saved_nodes(index, objects, nodes.take(k), sep),
    decreases nodes.len() - k,
{
    if k < nodes.len() {
        assert(nodes.take(k + 1).drop_last() =~= nodes.take(k));
        lemma_saved_nodes_stop(index, objects, nodes, sep, k + 1);
    } else {
        assert(nodes.take(k) =~= nodes);
    }
}

/// Puts a record for `path` with the given kind and hash into the index:
/// in place of the record the path has, or where the order wants it.
pub fn insert_index(index: &mut Index, path: &[u8], kind: Kind, key: &[u8])
    requires
        old(index).wf(),
    ensures
        final(index).wf(),
        final(index)@ == upserted(old(index)@, RecordView { path: path@, kind, hash: key@ }),
{
    index.upsert(Record { path: copy(path), kind, hash: copy(key) });
}

/// Stores `payload` as the object of `path` and enters it in the index.
pub fn save_payload(
    path: &[u8],
    kind: Kind,
    payload: Vec<u8>,
    index: &mut Index,
    store: &mut ObjectStore,
) -> (key: Result<Vec<u8>, Error>)
    requires
        old(index).wf(),
        old(store).wf(),
    ensures
        final(index).wf(),
        final(store).wf(),
        final(index)@ == saved_object(old(index)@, old(store)@, path@, kind, payload@).index,
        final(store)@ == saved_object(old(index)@, old(store)@, path@, kind, payload@).objects,
        match key {
            Ok(k) => saved_object(old(index)@, old(store)@, path@, kind, payload@).outcome == Ok::<
                Seq<u8>,
                Error,
            >(k@),
            Err(e) => saved_object(old(index)@, old(store)@, path@, kind, payload@).outcome
                == Err::<Seq<u8>, Error>(e),
        },
{
    let key = match store.store(payload) {
        Ok(k) => k,
        Err(e) => {
            return Err(e);
        },
    };
    insert_index(index, path, kind, key.as_slice());
    Ok(key)
}

/// Stores the blob payload of the file at `path` and enters the file in
/// the index.
pub fn save_blob(path: &[u8], payload: &[u8], index: &mut Index, store: &mut ObjectStore) -> (key:
    Result<Vec<u8>, Error>)
    requires
        old(index).wf(),
        old(store).wf(),
    ensures
        final(index).wf(),
        final(store).wf(),
        final(index)@ == saved_object(old(index)@, old(store)@, path@, Kind::Blob, payload@).index,
        final(store)@ == saved_object(
            old(index)@,
            old(store)@,
            path@,
            Kind::Blob,
            payload@,
        ).objects,
        match key {
            Ok(k) => saved_object(
                old(index)@,
                old(store)@,
                path@,
                Kind::Blob,
                payload@,
            ).outcome == Ok::<Seq<u8>, Error>(k@),
            Err(e) => saved_object(
                old(index)@,
                old(store)@,
                path@,
                Kind::Blob,
                payload@,
            ).outcome == Err::<Seq<u8>, Error>(e),
        },
{
    save_payload(path, Kind::Blob, copy(payload), index, store)
}

/// Saves a file or a directory with all that it holds: every file below
/// is stored as a blob, every directory as the tree object that lists its
/// entries in the order given, and each is entered in the index. Returns
/// the fingerprint of the object that stands for `node`.
pub fn save_tree(node: &Node, index: &mut Index, store: &mut ObjectStore, sep: u8) -> (key: Result<
    Vec<u8>,
    Error,
>)
    requires
        old(index).wf(),
        old(store).wf(),
    ensures
        final(index).wf(),
        final(store).wf(),
        final(index)@ == saved_node(old(index)@, old(store)@, *node, sep).index,
        final(store)@ == saved_node(old(index)@, old(store)@, *node, sep).objects,
        match key {
            Ok(k) => saved_node(old(index)@, old(store)@, *node, sep).outcome == Ok::<
                Seq<u8>,
                Error,
            >(k@),
            Err(e) => saved_node(old(index)@, old(store)@, *node, sep).outcome == Err::<
                Seq<u8>,
                Error,
            >(e),
        },
    decreases node,
{
    match node {
        Node::Blob { path, payload } => save_blob(
            path.as_slice(),
            payload.as_slice(),
            index,
            store,
        ),
        Node::Tree { path, children } => {
            let ghost index0 = index@;
            let ghost objects0 = store@;
            let ghost entries = Seq::<RecordView>::empty();
            let mut value = new_tree_payload();
            let mut i: usize = 0;
            assert(children@.take(0) =~= Seq::<Node>::empty());
            while i < children.len()
                invariant
                    i <= children@.len(),
                    index.wf(),
                    store.wf(),
                    *node == (Node::Tree { path: *path, children: *children }),
                    saved_nodes(index0, objects0, children@.take(i as int), sep) == (Listed {
                        index: index@,
                        objects: store@,
                        outcome: Ok(entries),
                    }),
                    value@ == tree_object(entries, sep),
                    index0 == old(index)@,
                    objects0 == old(store)@,
                decreases children@.len() - i,
            {
                let child = &children[i];
                proof {
                    assert(children@.take(i as int + 1).drop_last() =~= children@.take(i as int));
                    assert(children@.take(i as int + 1).last() == children@[i as int]);
                }
                let hash = match save_tree(child, index, store, sep) {
                    Ok(h) => h,
                    Err(e) => {
                        proof {
                            lemma_saved_nodes_stop(
                                index0,
                                objects0,
                                children@,
                                sep,
                                i as int + 1,
                            );
                        }
                        return Err(e);
                    },
                };
                let name = file_name(child.path().as_slice(), sep);
                append_child_line(&mut value, child.kind(), hash.as_slice(), name.as_slice());
                proof {
                    let entry = RecordView {
                        path: child.spec_path(),
                        kind: child.spec_kind(),
                        hash: hash@,
                    };
                    assert(entries.push(entry).drop_last() =~= entries);
                    entries = entries.push(entry);
                }
                i += 1;
            }
            assert(children@.take(i as int) =~= children@);
            save_payload(path.as_slice(), Kind::Tree, value, index, store)
        },
    }
}

} // verus!
