//! Propagation: after the record of a path changed, the tree object of every
//! directory above it, up to the root of the repository, is built again from
//! the records of the index and entered in the index.

use crate::bytes::copy;
use crate::digest::{fingerprint_of, hashable, lemma_fingerprint_is_hash, HASH_INPUT_LIMIT};
use crate::error::Error;
use crate::index::{
    lemma_rank_finds, lemma_upserted_lookup, lemma_upserted_sorted, lookup, sorted_by_path,
    upserted, Index, Kind, Record, RecordView,
};
use crate::path::{is_child_of, is_within, lemma_parent_shorter, parent, parent_of, within};
use crate::store::{
    content_addressed, holds, lemma_stored_content_addressed, payload_of, stored, ObjectStore,
    ObjectView,
};
use crate::tree::{
    children_of, lemma_tree_payload_bound, lemma_upserted_bound, lemma_upserted_children,
    listing_bound, tree_from_index, tree_payload,
};
use vstd::prelude::*;

verus! {

/// Where a walk towards the root ends: the index and the objects it leaves
/// behind, and whether it came through.
pub struct Walk {
    pub index: Seq<RecordView>,
    pub objects: Seq<ObjectView>,
    pub outcome: Result<(), Error>,
}

/// The record that the index holds for a directory whose tree object has the
/// fingerprint `hash`.
pub open spec fn tree_record(dir: Seq<u8>, hash: Seq<u8>) -> RecordView {
    RecordView { path: dir, kind: Kind::Tree, hash }
}

/// The walk from `path` towards `root`. Each step takes the directory that
/// holds the path of the step before, builds its tree object from the
/// index as it then stands, stores the object, and puts the directory's
/// record into the index. The walk ends well at the first directory that
/// is not within `root`. It fails with `InvalidPath` at a path that lies in
/// no directory and with `ObjectTooLarge` at a tree object that cannot be
/// hashed; the steps taken until then stay.
pub open spec fn propagated(
    index: Seq<RecordView>,
    objects: Seq<ObjectView>,
    path: Seq<u8>,
    root: Seq<u8>,
    sep: u8,
) -> Walk
    decreases path.len(),
{
    match parent_of(path, sep) {
        None => Walk { index, objects, outcome: Err(Error::InvalidPath) },
        Some(dir) => {
            if !is_within(dir, root, sep) {
                Walk { index, objects, outcome: Ok(()) }
            } else {
                let payload = tree_payload(index, dir, sep);
                if !hashable(payload) {
                    Walk { index, objects, outcome: Err(Error::ObjectTooLarge) }
                } else {
                    proof {
                        lemma_parent_shorter(path, sep);
                    }
                    propagated(
                        upserted(index, tree_record(dir, fingerprint_of(payload))),
                        stored(objects, payload),
                        dir,
                        root,
                        sep,
                    )
                }
            }
        },
    }
}

/// Whether the walk from `path` towards `root` builds the tree of `dir`:
/// `dir` holds `path`, directly or further up, and is within `root`.
pub open spec fn on_walk(dir: Seq<u8>, path: Seq<u8>, root: Seq<u8>, sep: u8) -> bool
    decreases path.len(),
{
    match parent_of(path, sep) {
        None => false,
        Some(up) => {
            is_within(up, root, sep) && (dir == up || {
                proof {
                    lemma_parent_shorter(path, sep);
                }
                on_walk(dir, up, root, sep)
            })
        },
    }
}

/// A walk keeps the index sorted and the store content-addressed. It
/// touches only records of directories above `path`: what the index holds
/// for a path at least as long as `path` stays, the children of a
/// directory at most one byte shorter than `path` stay, and no object
/// leaves the store.
pub proof fn lemma_walk_frame(
    index: Seq<RecordView>,
    objects: Seq<ObjectView>,
    path: Seq<u8>,
    root: Seq<u8>,
    sep: u8,
    other: Seq<u8>,
    key: Seq<u8>,
)
    requires
        sorted_by_path(index),
    ensures
        sorted_by_path(propagated(index, objects, path, root, sep).index),
        other.len() >= path.len() ==> lookup(
            propagated(index, objects, path, root, sep).index,
            other,
        ) == lookup(index, other),
        other.len() + 1 >= path.len() ==> children_of(
            propagated(index, objects, path, root, sep).index,
            other,
            sep,
        ) == children_of(index, other, sep),
        holds(objects, key) ==> holds(propagated(index, objects, path, root, sep).objects, key),
        content_addressed(objects) ==> content_addressed(
            propagated(index, objects, path, root, sep).objects,
        ),
    decreases path.len(),
{
    if let Some(dir) = parent_of(path, sep) {
        let payload = tree_payload(index, dir, sep);
        if is_within(dir, root, sep) && hashable(payload) {
            lemma_parent_shorter(path, sep);
            let record = tree_record(dir, fingerprint_of(payload));
            let next = upserted(index, record);
            let kept = stored(objects, payload);
            lemma_upserted_sorted(index, record);
            if content_addressed(objects) {
                lemma_stored_content_addressed(objects, payload);
            }
            lemma_walk_frame(next, kept, dir, root, sep, other, key);
            if other.len() >= path.len() {
                lemma_upserted_lookup(index, record, other);
            }
            if other.len() + 1 >= path.len() {
                if is_child_of(dir, other, sep) {
                    lemma_parent_shorter(dir, sep);
                }
                lemma_upserted_children(index, record, other, sep);
            }
            if holds(objects, key) {
                let i = choose|i: int| 0 <= i < objects.len() && #[trigger] objects[i].key == key;
                assert(kept[i].key == key);
            }
        }
    }
}

/// A walk changes only the records of the directories on its way: what
/// the index holds for any other path stays.
pub proof fn lemma_walk_spares_others(
    index: Seq<RecordView>,
    objects: Seq<ObjectView>,
    path: Seq<u8>,
    root: Seq<u8>,
    sep: u8,
    other: Seq<u8>,
)
    requires
        sorted_by_path(index),
        !on_walk(other, path, root, sep),
    ensures
        lookup(propagated(index, objects, path, root, sep).index, other) == lookup(index, other),
    decreases path.len(),
{
    if let Some(up) = parent_of(path, sep) {
        let payload = tree_payload(index, up, sep);
        if is_within(up, root, sep) && hashable(payload) {
            lemma_parent_shorter(path, sep);
            let record = tree_record(up, fingerprint_of(payload));
            lemma_upserted_sorted(index, record);
            lemma_upserted_lookup(index, record, other);
            lemma_walk_spares_others(
                upserted(index, record),
                stored(objects, payload),
                up,
                root,
                sep,
                other,
            );
        }
    }
}

/// After a walk that came through, the index holds a tree record for every
/// directory on the way, its hash is the fingerprint of the tree object
/// that lists the children the directory has in the index as it now
/// stands, and the store holds an object under that fingerprint, whose
/// payload has this fingerprint.
pub proof fn lemma_walk_consistent(
    index: Seq<RecordView>,
    objects: Seq<ObjectView>,
    path: Seq<u8>,
    root: Seq<u8>,
    sep: u8,
    dir: Seq<u8>,
)
    requires
        sorted_by_path(index),
        propagated(index, objects, path, root, sep).outcome is Ok,
        on_walk(dir, path, root, sep),
    ensures
        lookup(propagated(index, objects, path, root, sep).index, dir) == Some(
            tree_record(
                dir,
                fingerprint_of(
                    tree_payload(propagated(index, objects, path, root, sep).index, dir, sep),
                ),
            ),
        ),
        holds(
            propagated(index, objects, path, root, sep).objects,
            fingerprint_of(
                tree_payload(propagated(index, objects, path, root, sep).index, dir, sep),
            ),
        ),
        hashable(tree_payload(propagated(index, objects, path, root, sep).index, dir, sep)),
        content_addressed(objects) ==> fingerprint_of(
            payload_of(
                propagated(index, objects, path, root, sep).objects,
                fingerprint_of(
                    tree_payload(propagated(index, objects, path, root, sep).index, dir, sep),
                ),
            )->0,
        ) == fingerprint_of(
            tree_payload(propagated(index, objects, path, root, sep).index, dir, sep),
        ),
    decreases path.len(),
{
    let after = propagated(index, objects, path, root, sep);
    let dir_key = fingerprint_of(tree_payload(after.index, dir, sep));
    lemma_walk_frame(index, objects, path, root, sep, dir, dir_key);
    if content_addressed(objects) && holds(after.objects, dir_key) {
        let i = choose|i: int| 0 <= i < after.objects.len() && #[trigger] after.objects[i].key
            == dir_key;
        assert(after.objects[i].key == fingerprint_of(after.objects[i].payload));
    }
    let up = parent_of(path, sep)->0;
    let payload = tree_payload(index, up, sep);
    let record = tree_record(up, fingerprint_of(payload));
    let next = upserted(index, record);
    let kept = stored(objects, payload);
    lemma_parent_shorter(path, sep);
    lemma_upserted_sorted(index, record);
    if dir == up {
        lemma_walk_frame(next, kept, up, root, sep, up, fingerprint_of(payload));
        lemma_upserted_lookup(index, record, up);
        if is_child_of(up, up, sep) {
            lemma_parent_shorter(up, sep);
        }
        lemma_upserted_children(index, record, up, sep);
        if !holds(objects, fingerprint_of(payload)) {
            assert(kept[objects.len() as int].key == fingerprint_of(payload));
        }
    } else {
        lemma_walk_consistent(next, kept, up, root, sep, dir);
    }
}

/// Whether the walk from `path` ends by leaving `root`, and not at a path
/// that lies in no directory.
pub open spec fn leaves_root(path: Seq<u8>, root: Seq<u8>, sep: u8) -> bool
    decreases path.len(),
{
    match parent_of(path, sep) {
        None => false,
        Some(up) => !is_within(up, root, sep) || {
            proof {
                lemma_parent_shorter(path, sep);
            }
            leaves_root(up, root, sep)
        },
    }
}

/// A walk that came through has left the root.
pub proof fn lemma_walk_leaves_root(
    index: Seq<RecordView>,
    objects: Seq<ObjectView>,
    path: Seq<u8>,
    root: Seq<u8>,
    sep: u8,
)
    requires
        propagated(index, objects, path, root, sep).outcome is Ok,
    ensures
        leaves_root(path, root, sep),
    decreases path.len(),
{
    let up = parent_of(path, sep)->0;
    if is_within(up, root, sep) {
        lemma_parent_shorter(path, sep);
        let payload = tree_payload(index, up, sep);
        lemma_walk_leaves_root(
            upserted(index, tree_record(up, fingerprint_of(payload))),
            stored(objects, payload),
            up,
            root,
            sep,
        );
    }
}

/// Whether the index and the store are in line on the way from `path` to
/// `root`: every directory on the way has its tree record, with the
/// fingerprint of the tree object that lists its children, and the store
/// holds an object under that fingerprint.
pub open spec fn in_line(
    index: Seq<RecordView>,
    objects: Seq<ObjectView>,
    path: Seq<u8>,
    root: Seq<u8>,
    sep: u8,
) -> bool {
    forall|dir: Seq<u8>| #[trigger]
        on_walk(dir, path, root, sep) ==> {
            &&& hashable(tree_payload(index, dir, sep))
            &&& lookup(index, dir) == Some(
                tree_record(dir, fingerprint_of(tree_payload(index, dir, sep))),
            )
            &&& holds(objects, fingerprint_of(tree_payload(index, dir, sep)))
        }
}

/// A walk over an index and a store that are in line changes nothing.
pub proof fn lemma_walk_in_line(
    index: Seq<RecordView>,
    objects: Seq<ObjectView>,
    path: Seq<u8>,
    root: Seq<u8>,
    sep: u8,
)
    requires
        sorted_by_path(index),
        leaves_root(path, root, sep),
        in_line(index, objects, path, root, sep),
    ensures
        propagated(index, objects, path, root, sep) == (Walk { index, objects, outcome: Ok(()) }),
    decreases path.len(),
{
    let up = parent_of(path, sep)->0;
    if is_within(up, root, sep) {
        lemma_parent_shorter(path, sep);
        assert(on_walk(up, path, root, sep));
        let payload = tree_payload(index, up, sep);
        let record = tree_record(up, fingerprint_of(payload));
        lemma_rank_finds(index, up);
        assert(upserted(index, record) =~= index);
        assert forall|dir: Seq<u8>| #[trigger] on_walk(dir, up, root, sep) implies on_walk(
            dir,
            path,
            root,
            sep,
        ) by {}
        lemma_walk_in_line(index, objects, up, root, sep);
    }
}

/// Propagation is idempotent: a second walk from the same path, with
/// nothing changed in between, leaves the index and the store as the first
/// walk left them.
pub proof fn lemma_walk_idempotent(
    index: Seq<RecordView>,
    objects: Seq<ObjectView>,
    path: Seq<u8>,
    root: Seq<u8>,
    sep: u8,
)
    requires
        sorted_by_path(index),
        propagated(index, objects, path, root, sep).outcome is Ok,
    ensures
        propagated(
            propagated(index, objects, path, root, sep).index,
            propagated(index, objects, path, root, sep).objects,
            path,
            root,
            sep,
        ) == propagated(index, objects, path, root, sep),
{
    let first = propagated(index, objects, path, root, sep);
    lemma_walk_leaves_root(index, objects, path, root, sep);
    lemma_walk_frame(index, objects, path, root, sep, path, path);
    assert forall|dir: Seq<u8>| #[trigger] on_walk(dir, path, root, sep) implies {
        &&& hashable(tree_payload(first.index, dir, sep))
        &&& lookup(first.index, dir) == Some(
            tree_record(dir, fingerprint_of(tree_payload(first.index, dir, sep))),
        )
        &&& holds(first.objects, fingerprint_of(tree_payload(first.index, dir, sep)))
    } by {
        lemma_walk_consistent(index, objects, path, root, sep, dir);
    }
    lemma_walk_in_line(first.index, first.objects, path, root, sep);
    assert(first.outcome->Ok_0 == ());
}

/// The bytes that a walk from `path` needs at most for a listing: the
/// bound of the index, what the tree records on the way add to it, and
/// the five bytes of the header.
pub open spec fn walk_bound(index: Seq<RecordView>, path: Seq<u8>) -> nat {
    listing_bound(index) + path.len() * (path.len() + 47) + 5
}

/// When a walk is owed to come through: if it leaves the root, and the
/// index and the path are small enough for every listing on the way to be
/// hashed.
pub proof fn lemma_walk_comes_through(
    index: Seq<RecordView>,
    objects: Seq<ObjectView>,
    path: Seq<u8>,
    root: Seq<u8>,
    sep: u8,
)
    requires
        leaves_root(path, root, sep),
        walk_bound(index, path) < HASH_INPUT_LIMIT,
    ensures
        propagated(index, objects, path, root, sep).outcome is Ok,
    decreases path.len(),
{
    let up = parent_of(path, sep)->0;
    if is_within(up, root, sep) {
        lemma_parent_shorter(path, sep);
        let payload = tree_payload(index, up, sep);
        let record = tree_record(up, fingerprint_of(payload));
        let next = upserted(index, record);
        lemma_tree_payload_bound(index, up, sep);
        lemma_fingerprint_is_hash(payload);
        lemma_upserted_bound(index, record);
        let u = up.len() as int;
        let p = path.len() as int;
        assert(0 <= p * (p + 47)) by (nonlinear_arith)
            requires
                0 <= p,
        ;
        assert((u + 47) + u * (u + 47) <= p * (p + 47)) by (nonlinear_arith)
            requires
                0 <= u,
                u + 1 <= p,
        ;
        lemma_walk_comes_through(next, stored(objects, payload), up, root, sep);
    }
}

/// Brings the tree records of all directories above `path`, up to `root`,
/// in line with the records of the index, and stores their tree objects.
/// The index is not read from anywhere else: only its own records count.
/// The walk comes through if it leaves the root and the index and the path
/// are small enough for every listing to be hashed.
pub fn updata_index(
    buf: &mut Index,
    store: &mut ObjectStore,
    path: &[u8],
    root: &[u8],
    sep: u8,
) -> (outcome: Result<(), Error>)
    requires
        old(buf).wf(),
        old(store).wf(),
    ensures
        final(buf).wf(),
        final(store).wf(),
        final(buf)@ == propagated(old(buf)@, old(store)@, path@, root@, sep).index,
        final(store)@ == propagated(old(buf)@, old(store)@, path@, root@, sep).objects,
        outcome == propagated(old(buf)@, old(store)@, path@, root@, sep).outcome,
        leaves_root(path@, root@, sep) && walk_bound(old(buf)@, path@) < HASH_INPUT_LIMIT
            ==> outcome is Ok,
{
    let ghost goal = propagated(buf@, store@, path@, root@, sep);
    proof {
        if leaves_root(path@, root@, sep) && walk_bound(buf@, path@) < HASH_INPUT_LIMIT {
            lemma_walk_comes_through(buf@, store@, path@, root@, sep);
        }
    }
    let mut current = copy(path);
    loop
        invariant
            buf.wf(),
            store.wf(),
            propagated(buf@, store@, current@, root@, sep) == goal,
            goal == propagated(old(buf)@, old(store)@, path@, root@, sep),
            leaves_root(path@, root@, sep) && walk_bound(old(buf)@, path@) < HASH_INPUT_LIMIT
                ==> goal.outcome is Ok,
        decreases current@.len(),
    {
        let dir = match parent(current.as_slice(), sep) {
            Some(d) => d,
            None => {
                return Err(Error::InvalidPath);
            },
        };
        proof {
            lemma_parent_shorter(current@, sep);
        }
        if !within(dir.as_slice(), root, sep) {
            return Ok(());
        }
        let payload = tree_from_index(buf, dir.as_slice(), sep);
        let ghost tree = payload@;
        proof {
            lemma_upserted_sorted(buf@, tree_record(dir@, fingerprint_of(tree)));
        }
        let key = match store.store(payload) {
            Ok(k) => k,
            Err(e) => {
                return Err(e);
            },
        };
        buf.upsert(Record { path: copy(dir.as_slice()), kind: Kind::Tree, hash: key });
        current = dir;
    }
}

} // verus!
