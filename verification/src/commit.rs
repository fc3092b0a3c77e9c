//! Commits: a snapshot of the tree of the root, chained to the commit that
//! the branch checked out pointed at before.

use crate::bytes::{append, copy};
use crate::digest::{fingerprint_of, hashable, is_hash, HASH_INPUT_LIMIT};
use crate::error::Error;
use crate::index::{lookup, Index, Kind, RecordView};
use crate::refs::{commit_of, lemma_pointed, pointed, Refs, RefsView};
use crate::store::{stored, ObjectStore, ObjectView};
use chrono::{DateTime, Utc};
use std::time::{SystemTime, UNIX_EPOCH};
use vstd::prelude::*;

verus! {

/// What every commit payload starts with: `commit` and a zero byte.
pub open spec fn commit_header() -> Seq<u8> {
    seq![0x63u8, 0x6f, 0x6d, 0x6d, 0x69, 0x74, 0]
}

/// The label of the parent: `parent` and a space.
pub open spec fn parent_label() -> Seq<u8> {
    seq![0x70u8, 0x61, 0x72, 0x65, 0x6e, 0x74, 0x20]
}

/// The label of the author: a line feed, a space, `author` and a space.
pub open spec fn author_label() -> Seq<u8> {
    seq![0x0au8, 0x20, 0x61, 0x75, 0x74, 0x68, 0x6f, 0x72, 0x20]
}

/// The label of the time: a line feed, a space, `datetime` and a space.
pub open spec fn datetime_label() -> Seq<u8> {
    seq![0x0au8, 0x20, 0x64, 0x61, 0x74, 0x65, 0x74, 0x69, 0x6d, 0x65, 0x20]
}

/// The label of the message: a line feed, a space, `note` and a space.
pub open spec fn note_label() -> Seq<u8> {
    seq![0x0au8, 0x20, 0x6e, 0x6f, 0x74, 0x65, 0x20]
}

/// The label of the tree: a line feed, a space, `tree` and a space.
pub open spec fn tree_label() -> Seq<u8> {
    seq![0x0au8, 0x20, 0x74, 0x72, 0x65, 0x65, 0x20]
}

/// What a commit names as its parent: the hash of the commit before it, or
/// a single zero byte if there was none.
pub open spec fn parent_field(parent: Option<Seq<u8>>) -> Seq<u8> {
    match parent {
        Some(hash) => hash,
        None => seq![0u8],
    }
}

/// The payload of a commit object.
pub open spec fn commit_object(
    parent: Option<Seq<u8>>,
    author: Seq<u8>,
    datetime: Seq<u8>,
    message: Seq<u8>,
    tree: Seq<u8>,
) -> Seq<u8> {
    commit_header() + parent_label() + parent_field(parent) + author_label() + author
        + datetime_label() + datetime + note_label() + message + tree_label() + tree
}

/// The hash of the tree that the index holds for the root of the
/// repository, if it holds one.
pub open spec fn root_tree(index: Seq<RecordView>, root: Seq<u8>) -> Option<Seq<u8>> {
    match lookup(index, root) {
        Some(r) => if r.kind == Kind::Tree {
            Some(r.hash)
        } else {
            None
        },
        None => None,
    }
}

/// Where a commit ends: the objects and the branches it leaves behind, and
/// the hash of the commit, or why there is none.
pub struct Committed {
    pub objects: Seq<ObjectView>,
    pub refs: RefsView,
    pub outcome: Result<Seq<u8>, Error>,
}

/// A commit made at the time `datetime`. It fails with `NoIndexEntry` if
/// the index holds no tree for the root, and with `ObjectTooLarge` if its
/// payload cannot be hashed; a failure changes nothing. Else its payload
/// names as parent the commit that the branch checked out points at, it is
/// stored, and that branch, and no other, is pointed at it.
pub open spec fn committed(
    index: Seq<RecordView>,
    objects: Seq<ObjectView>,
    refs: RefsView,
    root: Seq<u8>,
    author: Seq<u8>,
    message: Seq<u8>,
    datetime: Seq<u8>,
) -> Committed {
    match root_tree(index, root) {
        None => Committed { objects, refs, outcome: Err(Error::NoIndexEntry) },
        Some(tree) => {
            let payload = commit_object(
                commit_of(refs.branches, refs.head),
                author,
                datetime,
                message,
                tree,
            );
            if hashable(payload) {
                Committed {
                    objects: stored(objects, payload),
                    refs: RefsView {
                        head: refs.head,
                        branches: pointed(refs.branches, refs.head, fingerprint_of(payload)),
                    },
                    outcome: Ok(fingerprint_of(payload)),
                }
            } else {
                Committed { objects, refs, outcome: Err(Error::ObjectTooLarge) }
            }
        },
    }
}

/// The outcome of an operation with the hash taken as a mathematical
/// value.
pub open spec fn outcome_view(outcome: Result<Vec<u8>, Error>) -> Result<Seq<u8>, Error> {
    match outcome {
        Ok(hash) => Ok(hash@),
        Err(e) => Err(e),
    }
}

/// Of two commits made one after the other, the second names the first as
/// its parent, and after each the branch checked out points at the commit
/// just made. What is staged may change between the two.
pub proof fn lemma_commit_chain(
    index: Seq<RecordView>,
    objects: Seq<ObjectView>,
    refs: RefsView,
    root: Seq<u8>,
    author: Seq<u8>,
    message: Seq<u8>,
    datetime: Seq<u8>,
    later_index: Seq<RecordView>,
    later_author: Seq<u8>,
    later_message: Seq<u8>,
    later_datetime: Seq<u8>,
)
    requires
        committed(index, objects, refs, root, author, message, datetime).outcome is Ok,
        committed(
            later_index,
            committed(index, objects, refs, root, author, message, datetime).objects,
            committed(index, objects, refs, root, author, message, datetime).refs,
            root,
            later_author,
            later_message,
            later_datetime,
        ).outcome is Ok,
    ensures
        ({
            let first = committed(index, objects, refs, root, author, message, datetime);
            let second = committed(
                later_index,
                first.objects,
                first.refs,
                root,
                later_author,
                later_message,
                later_datetime,
            );
            &&& commit_of(first.refs.branches, first.refs.head) == Some(first.outcome->Ok_0)
            &&& commit_of(second.refs.branches, second.refs.head) == Some(second.outcome->Ok_0)
            &&& second.outcome->Ok_0 == fingerprint_of(
                commit_object(
                    Some(first.outcome->Ok_0),
                    later_author,
                    later_datetime,
                    later_message,
                    root_tree(later_index, root)->0,
                ),
            )
            &&& forall|other: Seq<u8>|
                other != refs.head ==> commit_of(second.refs.branches, other) == commit_of(
                    refs.branches,
                    other,
                )
        }),
{
    let first = committed(index, objects, refs, root, author, message, datetime);
    let second = committed(
        later_index,
        first.objects,
        first.refs,
        root,
        later_author,
        later_message,
        later_datetime,
    );
    lemma_pointed(refs.branches, refs.head, first.outcome->Ok_0, refs.head);
    lemma_pointed(first.refs.branches, refs.head, second.outcome->Ok_0, refs.head);
    assert forall|other: Seq<u8>| other != refs.head implies commit_of(
        second.refs.branches,
        other,
    ) == commit_of(refs.branches, other) by {
        lemma_pointed(refs.branches, refs.head, first.outcome->Ok_0, other);
        lemma_pointed(first.refs.branches, refs.head, second.outcome->Ok_0, other);
    }
}

/// The most bytes that a time takes when written.
pub const DATETIME_MAX_LEN: usize = 64;

/// A point in time as `std::time` reads it from the clock, carried
/// through without a look inside.
#[verifier::external_type_specification]
#[verifier::external_body]
pub struct ExSystemTime(SystemTime);

/// What the `chrono` crate writes for the time that lies `secs` seconds
/// and `nanos` nanoseconds after the start of 1970 in UTC, or nothing
/// where it has no such time. The library does not define it; it only
/// relies on it being a function of the two numbers.
pub uninterp spec fn utc_text(secs: i64, nanos: u32) -> Option<Seq<u8>>;

/// Calls `std::time::SystemTime::now`. Nothing is claimed of the time that
/// comes back: it depends on the clock.
#[verifier::external_body]
fn system_now() -> SystemTime {
    SystemTime::now()
}

/// Calls `SystemTime::duration_since` with `UNIX_EPOCH` and takes the
/// whole seconds and the nanoseconds of what it gives. A time before 1970
/// gives nothing. No more is claimed.
#[verifier::external_body]
fn since_epoch(time: &SystemTime) -> (elapsed: Option<(u64, u32)>) {
    match time.duration_since(UNIX_EPOCH) {
        Ok(d) => Some((d.as_secs(), d.subsec_nanos())),
        Err(_) => None,
    }
}

/// Calls `chrono::DateTime::<Utc>::from_timestamp` and writes the time as
/// its `Display` does: the date, a space, the time of day, a space and
/// `UTC`. Trusted: whether there is such a time and how it is written
/// depend on the two numbers alone, as `utc_text` names it, and what is
/// written takes no more than 64 bytes.
#[verifier::external_body]
fn write_utc(secs: i64, nanos: u32) -> (text: Option<Vec<u8>>)
    ensures
        match text {
            Some(t) => utc_text(secs, nanos) == Some(t@) && t@.len() <= DATETIME_MAX_LEN,
            None => utc_text(secs, nanos) is None,
        },
{
    match DateTime::<Utc>::from_timestamp(secs, nanos) {
        Some(time) => Some(time.to_string().into_bytes()),
        None => None,
    }
}

/// The time that a reading of the clock stands for, written out. A
/// reading is the seconds and nanoseconds since the start of 1970. There
/// is nothing to write where the clock gave no reading, or one that lies
/// beyond the times that can be written.
pub open spec fn stamp_of(clock: Option<(u64, u32)>) -> Option<Seq<u8>> {
    match clock {
        Some((secs, nanos)) => if secs <= i64::MAX {
            utc_text(secs as i64, nanos)
        } else {
            None
        },
        None => None,
    }
}

/// Writes out the time that a reading of the clock stands for.
pub fn stamp(clock: Option<(u64, u32)>) -> (text: Option<Vec<u8>>)
    ensures
        match text {
            Some(t) => stamp_of(clock) == Some(t@) && t@.len() <= DATETIME_MAX_LEN,
            None => stamp_of(clock) is None,
        },
{
    match clock {
        Some((secs, nanos)) => {
            if secs <= i64::MAX as u64 {
                write_utc(secs as i64, nanos)
            } else {
                None
            }
        },
        None => None,
    }
}

/// The bytes of a commit payload besides the parent, the author, the
/// message and the hash of the tree, when the time takes the most bytes it
/// can: the header, the five labels and the time.
pub const COMMIT_FRAME_LEN: u64 = 112;

/// Whether a commit made now is sure to fit the digest: a time of any
/// length that the clock gives leaves its payload short enough to be
/// hashed.
pub open spec fn commit_fits(
    parent: Option<Seq<u8>>,
    author: Seq<u8>,
    message: Seq<u8>,
    tree: Seq<u8>,
) -> bool {
    parent_field(parent).len() + author.len() + message.len() + tree.len() + COMMIT_FRAME_LEN
        < HASH_INPUT_LIMIT
}

/// When a commit is owed to come through: if a tree is staged for the
/// root, the time is no longer than the clock writes it, and the parent,
/// the author, the message and the hash of the tree leave room for it.
pub proof fn lemma_commit_comes_through(
    index: Seq<RecordView>,
    objects: Seq<ObjectView>,
    refs: RefsView,
    root: Seq<u8>,
    author: Seq<u8>,
    message: Seq<u8>,
    datetime: Seq<u8>,
)
    requires
        root_tree(index, root) is Some,
        datetime.len() <= DATETIME_MAX_LEN,
        commit_fits(
            commit_of(refs.branches, refs.head),
            author,
            message,
            root_tree(index, root)->0,
        ),
    ensures
        committed(index, objects, refs, root, author, message, datetime).outcome is Ok,
        is_hash(committed(index, objects, refs, root, author, message, datetime).outcome->Ok_0),
{
}

/// Reads from the index the hash of the tree of the root. Fails with
/// `NoIndexEntry` if the index holds no tree for the root, as it does
/// when nothing is staged.
pub fn create_tree_from_index(index: &Index, root: &[u8]) -> (tree: Result<Vec<u8>, Error>)
    requires
        index.wf(),
    ensures
        match tree {
            Ok(hash) => root_tree(index@, root@) == Some(hash@),
            Err(e) => e == Error::NoIndexEntry && root_tree(index@, root@) is None,
        },
{
    match index.lookup(root) {
        Some(record) => match record.kind {
            Kind::Tree => Ok(copy(record.hash.as_slice())),
            Kind::Blob => Err(Error::NoIndexEntry),
        },
        None => Err(Error::NoIndexEntry),
    }
}

/// Writes the payload of a commit object.
pub fn commit_payload(
    parent: Option<&Vec<u8>>,
    author: &[u8],
    datetime: &[u8],
    message: &[u8],
    tree: &[u8],
) -> (payload: Vec<u8>)
    ensures
        payload@ == commit_object(
            match parent {
                Some(p) => Some(p@),
                None => None,
            },
            author@,
            datetime@,
            message@,
            tree@,
        ),
{
    let header: [u8; 7] = [0x63, 0x6f, 0x6d, 0x6d, 0x69, 0x74, 0];
    let parent_word: [u8; 7] = [0x70, 0x61, 0x72, 0x65, 0x6e, 0x74, 0x20];
    let author_word: [u8; 9] = [0x0a, 0x20, 0x61, 0x75, 0x74, 0x68, 0x6f, 0x72, 0x20];
    let datetime_word: [u8; 11] = [
        0x0a,
        0x20,
        0x64,
        0x61,
        0x74,
        0x65,
        0x74,
        0x69,
        0x6d,
        0x65,
        0x20,
    ];
    let note_word: [u8; 7] = [0x0a, 0x20, 0x6e, 0x6f, 0x74, 0x65, 0x20];
    let tree_word: [u8; 7] = [0x0a, 0x20, 0x74, 0x72, 0x65, 0x65, 0x20];
    assert(header@ =~= commit_header());
    assert(parent_word@ =~= parent_label());
    assert(author_word@ =~= author_label());
    assert(datetime_word@ =~= datetime_label());
    assert(note_word@ =~= note_label());
    assert(tree_word@ =~= tree_label());
    let mut payload: Vec<u8> = Vec::new();
    append(&mut payload, header.as_slice());
    append(&mut payload, parent_word.as_slice());
    match parent {
        Some(p) => {
            append(&mut payload, p.as_slice());
        },
        None => {
            payload.push(0);
            assert(payload@ =~= commit_header() + parent_label() + seq![0u8]);
        },
    }
    append(&mut payload, author_word.as_slice());
    append(&mut payload, author);
    append(&mut payload, datetime_word.as_slice());
    append(&mut payload, datetime);
    append(&mut payload, note_word.as_slice());
    append(&mut payload, message);
    append(&mut payload, tree_word.as_slice());
    append(&mut payload, tree);
    assert(payload@ =~= commit_header() + parent_label() + parent_field(
        match parent {
            Some(p) => Some(p@),
            None => None,
        },
    ) + author_label() + author@ + datetime_label() + datetime@ + note_label() + message@
        + tree_label() + tree@);
    payload
}

/// Makes a commit at the time `datetime`.
pub fn commit_at(
    index: &Index,
    store: &mut ObjectStore,
    refs: &mut Refs,
    root: &[u8],
    author: &[u8],
    message: &[u8],
    datetime: &[u8],
) -> (outcome: Result<Vec<u8>, Error>)
    requires
        index.wf(),
        old(store).wf(),
        old(refs).wf(),
    ensures
        final(store).wf(),
        final(refs).wf(),
        outcome matches Ok(k) ==> is_hash(k@),
        final(store)@ == committed(
            index@,
            old(store)@,
            old(refs)@,
            root@,
            author@,
            message@,
            datetime@,
        ).objects,
        final(refs)@ == committed(
            index@,
            old(store)@,
            old(refs)@,
            root@,
            author@,
            message@,
            datetime@,
        ).refs,
        outcome_view(outcome) == committed(
            index@,
            old(store)@,
            old(refs)@,
            root@,
            author@,
            message@,
            datetime@,
        ).outcome,
{
    let tree = match create_tree_from_index(index, root) {
        Ok(t) => t,
        Err(e) => {
            return Err(e);
        },
    };
    let head = copy(refs.head().as_slice());
    let payload = commit_payload(
        refs.commit_of(head.as_slice()),
        author,
        datetime,
        message,
        tree.as_slice(),
    );
    let key = match store.store(payload) {
        Ok(k) => k,
        Err(e) => {
            return Err(e);
        },
    };
    refs.point(head.as_slice(), key.as_slice());
    Ok(key)
}

/// Whether a commit made at the time `datetime` ends as given.
pub open spec fn commit_ends(
    index: Seq<RecordView>,
    objects: Seq<ObjectView>,
    refs: RefsView,
    root: Seq<u8>,
    author: Seq<u8>,
    message: Seq<u8>,
    datetime: Seq<u8>,
    end: Committed,
) -> bool {
    committed(index, objects, refs, root, author, message, datetime) == end
}

/// A commit made with the time `stamp`, if the clock gave one. Without a
/// tree for the root it fails with `NoIndexEntry`, whatever the clock
/// gave. Without a time it fails with `ClockUnreadable`. A failure changes
/// nothing.
pub open spec fn committed_on(
    index: Seq<RecordView>,
    objects: Seq<ObjectView>,
    refs: RefsView,
    root: Seq<u8>,
    author: Seq<u8>,
    message: Seq<u8>,
    stamp: Option<Seq<u8>>,
) -> Committed {
    if root_tree(index, root) is None {
        Committed { objects, refs, outcome: Err(Error::NoIndexEntry) }
    } else {
        match stamp {
            Some(datetime) => committed(index, objects, refs, root, author, message, datetime),
            None => Committed { objects, refs, outcome: Err(Error::ClockUnreadable) },
        }
    }
}

/// Makes a commit at the time that a reading of the clock stands for.
pub fn commit_on(
    index: &Index,
    store: &mut ObjectStore,
    refs: &mut Refs,
    root: &[u8],
    author: &[u8],
    message: &[u8],
    clock: Option<(u64, u32)>,
) -> (outcome: Result<Vec<u8>, Error>)
    requires
        index.wf(),
        old(store).wf(),
        old(refs).wf(),
    ensures
        final(store).wf(),
        final(refs).wf(),
        outcome matches Ok(k) ==> is_hash(k@),
        final(store)@ == committed_on(
            index@,
            old(store)@,
            old(refs)@,
            root@,
            author@,
            message@,
            stamp_of(clock),
        ).objects,
        final(refs)@ == committed_on(
            index@,
            old(store)@,
            old(refs)@,
            root@,
            author@,
            message@,
            stamp_of(clock),
        ).refs,
        outcome_view(outcome) == committed_on(
            index@,
            old(store)@,
            old(refs)@,
            root@,
            author@,
            message@,
            stamp_of(clock),
        ).outcome,
        stamp_of(clock) is Some && root_tree(index@, root@) is Some && commit_fits(
            commit_of(old(refs)@.branches, old(refs)@.head),
            author@,
            message@,
            root_tree(index@, root@)->0,
        ) ==> outcome is Ok,
        stamp_of(clock) is Some && root_tree(index@, root@) is Some ==> stamp_of(clock)->0.len()
            <= DATETIME_MAX_LEN,
{
    if let Err(e) = create_tree_from_index(index, root) {
        return Err(e);
    }
    match stamp(clock) {
        Some(datetime) => commit_at(index, store, refs, root, author, message, datetime.as_slice()),
        None => Err(Error::ClockUnreadable),
    }
}

/// Makes a commit now. Without a tree for the root it fails with
/// `NoIndexEntry`, before the clock is read. Else the clock is read, and
/// the commit ends as a commit made at some time does, or fails with
/// `ClockUnreadable` and changes nothing. With a tree staged for the root
/// and a time read it comes through, unless the parent, the author, the
/// message and the hash of the tree are together too long to be hashed.
pub fn commit(
    index: &Index,
    store: &mut ObjectStore,
    refs: &mut Refs,
    root: &[u8],
    author: &[u8],
    message: &[u8],
) -> (outcome: Result<Vec<u8>, Error>)
    requires
        index.wf(),
        old(store).wf(),
        old(refs).wf(),
    ensures
        final(store).wf(),
        final(refs).wf(),
        (exists|datetime: Seq<u8>|
            datetime.len() <= DATETIME_MAX_LEN && #[trigger] commit_ends(
                index@,
                old(store)@,
                old(refs)@,
                root@,
                author@,
                message@,
                datetime,
                Committed {
                    objects: final(store)@,
                    refs: final(refs)@,
                    outcome: outcome_view(outcome),
                },
            )) || (outcome == Err::<Vec<u8>, Error>(Error::ClockUnreadable) && final(store)@
            == old(store)@ && final(refs)@ == old(refs)@),
        root_tree(index@, root@) is None <==> outcome == Err::<Vec<u8>, Error>(
            Error::NoIndexEntry,
        ),
        root_tree(index@, root@) is Some && commit_fits(
            commit_of(old(refs)@.branches, old(refs)@.head),
            author@,
            message@,
            root_tree(index@, root@)->0,
        ) ==> outcome is Ok || outcome == Err::<Vec<u8>, Error>(Error::ClockUnreadable),
        outcome matches Ok(k) ==> is_hash(k@),
{
    if let Err(e) = create_tree_from_index(index, root) {
        assert(commit_ends(
            index@,
            store@,
            refs@,
            root@,
            author@,
            message@,
            Seq::<u8>::empty(),
            Committed { objects: store@, refs: refs@, outcome: Err(e) },
        ));
        return Err(e);
    }
    let time = system_now();
    let clock = since_epoch(&time);
    let outcome = commit_on(index, store, refs, root, author, message, clock);
    proof {
        if stamp_of(clock) is Some {
            assert(commit_ends(
                index@,
                old(store)@,
                old(refs)@,
                root@,
                author@,
                message@,
                stamp_of(clock)->0,
                Committed { objects: store@, refs: refs@, outcome: outcome_view(outcome) },
            ));
        }
    }
    outcome
}

} // verus!
