use minigit::assemble::Node;
use minigit::blob::blob_payload;
use minigit::commit::{
    commit, commit_at, commit_on, commit_payload, create_tree_from_index, stamp,
};
use minigit::digest::fingerprint;
use minigit::error::Error;
use minigit::index::{Index, Kind, Record};
use minigit::refs::{branch_check, branch_create, branch_delete, read_head, write_head, Listing, Refs};
use minigit::stage::{add, rm, Removal};
use minigit::store::ObjectStore;

fn bytes(s: &str) -> Vec<u8> {
    s.as_bytes().to_vec()
}

const ROOT: &[u8] = b"C:\\work\\test";

fn staged() -> (Index, ObjectStore) {
    let mut index = Index::new();
    let mut store = ObjectStore::new();
    let nodes = vec![
        Node::Blob {
            path: bytes("C:\\work\\test\\1.txt"),
            payload: blob_payload(b"Hello First World!").unwrap(),
        },
        Node::Tree {
            path: bytes("C:\\work\\test\\test_dir"),
            children: vec![Node::Blob {
                path: bytes("C:\\work\\test\\test_dir\\2.txt"),
                payload: blob_payload(b"Hello Second World!").unwrap(),
            }],
        },
    ];
    add(&nodes, &mut index, &mut store, ROOT, b'\\').unwrap();
    let removals =
        vec![Removal { path: bytes("C:\\work\\test\\test_dir\\2.txt"), is_dir: false, below: vec![] }];
    rm(&removals, &mut index, &mut store, ROOT, b'\\').unwrap();
    (index, store)
}

fn names(refs: &Refs) -> Vec<(String, bool)> {
    branch_check(refs)
        .into_iter()
        .map(|l: Listing| (String::from_utf8(l.name).unwrap(), l.current))
        .collect()
}

#[test]
fn commit_payload_has_the_literal_framing() {
    let parent = bytes("1111111111111111111111111111111111111111");
    let payload = commit_payload(Some(&parent), b"ann", b"2024-01-02 03:04:05 UTC", b"msg", b"2222");
    assert_eq!(
        payload,
        b"commit\0parent 1111111111111111111111111111111111111111\n author ann\n datetime 2024-01-02 03:04:05 UTC\n note msg\n tree 2222"
            .to_vec()
    );
}

#[test]
fn first_commit_names_a_zero_byte_as_parent() {
    let payload = commit_payload(None, b"ann", b"now", b"msg", b"2222");
    assert_eq!(payload, b"commit\0parent \0\n author ann\n datetime now\n note msg\n tree 2222".to_vec());
}

#[test]
fn create_tree_from_index_reads_the_root_tree() {
    let (index, _) = staged();
    let tree = create_tree_from_index(&index, ROOT).unwrap();
    assert_eq!(tree, index.get(0).hash);
    assert_eq!(index.get(0).path, ROOT);
}

#[test]
fn commit_of_an_empty_index_fails() {
    let index = Index::new();
    let mut store = ObjectStore::new();
    let mut refs = Refs::new();
    assert_eq!(create_tree_from_index(&index, ROOT), Err(Error::NoIndexEntry));
    assert_eq!(
        commit_at(&index, &mut store, &mut refs, ROOT, b"ann", b"msg", b"now"),
        Err(Error::NoIndexEntry)
    );
    assert_eq!(commit(&index, &mut store, &mut refs, ROOT, b"ann", b"msg"), Err(Error::NoIndexEntry));
    assert_eq!(store.len(), 0);
    assert_eq!(refs.len(), 0);
}

#[test]
fn commit_without_a_tree_for_the_root_fails() {
    let mut index = Index::new();
    index.upsert(Record { path: bytes("C:\\work\\test\\1.txt"), kind: Kind::Blob, hash: bytes("11") });
    let mut store = ObjectStore::new();
    let mut refs = Refs::new();
    assert_eq!(
        commit_at(&index, &mut store, &mut refs, ROOT, b"ann", b"msg", b"now"),
        Err(Error::NoIndexEntry)
    );
    index.upsert(Record { path: ROOT.to_vec(), kind: Kind::Blob, hash: bytes("22") });
    assert_eq!(
        commit_at(&index, &mut store, &mut refs, ROOT, b"ann", b"msg", b"now"),
        Err(Error::NoIndexEntry)
    );
}

#[test]
fn commits_are_chained() {
    let (index, mut store) = staged();
    let mut refs = Refs::new();
    let tree = create_tree_from_index(&index, ROOT).unwrap();
    let first = commit_at(&index, &mut store, &mut refs, ROOT, b"ann", b"one", b"t1").unwrap();
    assert_eq!(first, fingerprint(&commit_payload(None, b"ann", b"t1", b"one", &tree)).unwrap());
    assert_eq!(refs.commit_of(b"master"), Some(&first));
    let second = commit_at(&index, &mut store, &mut refs, ROOT, b"bob", b"two", b"t2").unwrap();
    let payload = commit_payload(Some(&first), b"bob", b"t2", b"two", &tree);
    assert_eq!(second, fingerprint(&payload).unwrap());
    assert_eq!(store.get(store.position(&second).unwrap()).payload, payload);
    assert_eq!(refs.commit_of(b"master"), Some(&second));
    assert_eq!(refs.len(), 1);
}

#[test]
fn stamp_writes_the_time_in_utc() {
    assert_eq!(stamp(Some((1431648000, 0))), Some(bytes("2015-05-15 00:00:00 UTC")));
    assert_eq!(stamp(Some((0, 0))), Some(bytes("1970-01-01 00:00:00 UTC")));
    assert_eq!(stamp(Some((1, 500_000_000))), Some(bytes("1970-01-01 00:00:01.500 UTC")));
    assert_eq!(stamp(Some((59, 1_999_999_999))), Some(bytes("1970-01-01 00:00:60.999999999 UTC")));
    assert_eq!(stamp(None), None);
    assert_eq!(stamp(Some((u64::MAX, 0))), None);
    assert_eq!(stamp(Some((i64::MAX as u64, 0))), None);
    assert_eq!(stamp(Some((0, 2_000_000_000))), None);
    assert_eq!(stamp(Some((1, 1_000_000_000))), None);
    let late = stamp(Some((8_210_266_876_799, 999_999_999))).unwrap();
    assert_eq!(late, bytes("+262142-12-31 23:59:59.999999999 UTC"));
    assert!(late.len() <= 64);
}

#[test]
fn commit_on_a_reading_of_the_clock() {
    let (index, mut store) = staged();
    let mut refs = Refs::new();
    let tree = create_tree_from_index(&index, ROOT).unwrap();
    let key =
        commit_on(&index, &mut store, &mut refs, ROOT, b"ann", b"one", Some((1431648000, 0))).unwrap();
    let payload = commit_payload(None, b"ann", b"2015-05-15 00:00:00 UTC", b"one", &tree);
    assert_eq!(key, fingerprint(&payload).unwrap());
    assert_eq!(store.payload(&key), Some(&payload));
    assert_eq!(refs.commit_of(b"master"), Some(&key));
}

#[test]
fn commit_without_a_time_changes_nothing() {
    let (index, mut store) = staged();
    let mut refs = Refs::new();
    let objects = store.len();
    for clock in [None, Some((u64::MAX, 0)), Some((0, 2_000_000_000))] {
        assert_eq!(
            commit_on(&index, &mut store, &mut refs, ROOT, b"ann", b"one", clock),
            Err(Error::ClockUnreadable)
        );
        assert_eq!(store.len(), objects);
        assert_eq!(refs.len(), 0);
    }
    let empty = Index::new();
    assert_eq!(
        commit_on(&empty, &mut store, &mut refs, ROOT, b"ann", b"one", None),
        Err(Error::NoIndexEntry)
    );
}

#[test]
fn commit_moves_only_the_current_branch() {
    let (index, mut store) = staged();
    let mut refs = Refs::new();
    let first = commit_at(&index, &mut store, &mut refs, ROOT, b"ann", b"one", b"t1").unwrap();
    branch_create(&mut refs, b"other").unwrap();
    let second = commit_at(&index, &mut store, &mut refs, ROOT, b"ann", b"two", b"t2").unwrap();
    assert_eq!(refs.commit_of(b"other"), Some(&first));
    assert_eq!(refs.commit_of(b"master"), Some(&second));
}

#[test]
fn test_commit() {
    let (index, mut store) = staged();
    let mut refs = Refs::new();
    let author_name = "master".to_string();
    let message = "test first commit".to_string();
    let before = store.len();
    let key =
        commit(&index, &mut store, &mut refs, ROOT, author_name.as_bytes(), message.as_bytes()).unwrap();
    assert_eq!(key.len(), 40);
    assert_eq!(store.len(), before + 1);
    let payload = store.get(store.position(&key).unwrap()).payload.clone();
    assert_eq!(key, fingerprint(&payload).unwrap());
    let head = b"commit\0parent \0\n author master\n datetime ";
    assert_eq!(&payload[..head.len()], head);
    let mut tail = bytes("\n note test first commit\n tree ");
    tail.extend(create_tree_from_index(&index, ROOT).unwrap());
    assert_eq!(&payload[payload.len() - tail.len()..], &tail[..]);
    assert!(payload.len() > head.len() + tail.len());
    assert_eq!(refs.commit_of(b"master"), Some(&key));
}

#[test]
fn test_branch() {
    let (index, mut store) = staged();
    let mut refs = Refs::new();
    let key = commit(&index, &mut store, &mut refs, ROOT, b"master", b"test first commit").unwrap();
    println!("before create");
    assert_eq!(names(&refs), vec![("master".to_string(), true)]);
    branch_create(&mut refs, "second_branch".as_bytes()).unwrap();
    println!("after create");
    assert_eq!(names(&refs), vec![("master".to_string(), true), ("second_branch".to_string(), false)]);
    assert_eq!(refs.commit_of(b"second_branch"), Some(&key));
    branch_delete(&mut refs, "second_branch".as_bytes()).unwrap();
    println!("after delete");
    assert_eq!(names(&refs), vec![("master".to_string(), true)]);
}

#[test]
fn branch_create_refuses_an_existing_name() {
    let (index, mut store) = staged();
    let mut refs = Refs::new();
    commit_at(&index, &mut store, &mut refs, ROOT, b"ann", b"one", b"t1").unwrap();
    assert_eq!(branch_create(&mut refs, b"master"), Err(Error::BranchAlreadyExists));
    branch_create(&mut refs, b"dev").unwrap();
    assert_eq!(branch_create(&mut refs, b"dev"), Err(Error::BranchAlreadyExists));
    assert_eq!(refs.len(), 2);
}

#[test]
fn branch_create_before_the_first_commit_fails() {
    let mut refs = Refs::new();
    assert_eq!(branch_create(&mut refs, b"dev"), Err(Error::BranchHeadUnreadable));
    assert_eq!(refs.len(), 0);
}

#[test]
fn branch_delete_refuses_the_current_and_the_unknown() {
    let (index, mut store) = staged();
    let mut refs = Refs::new();
    commit_at(&index, &mut store, &mut refs, ROOT, b"ann", b"one", b"t1").unwrap();
    assert_eq!(branch_delete(&mut refs, b"master"), Err(Error::CannotDeleteCurrentBranch));
    assert_eq!(branch_delete(&mut refs, b"none"), Err(Error::BranchNotFound));
    assert_eq!(refs.len(), 1);
}

#[test]
fn head_names_the_branch_after_a_fixed_prefix() {
    assert_eq!(write_head(b"master"), b"refs/heads/master".to_vec());
    assert_eq!(read_head(b"refs/heads/master"), Ok(bytes("master")));
    assert_eq!(read_head(b"refs/heads/a/b"), Ok(bytes("a/b")));
    assert_eq!(read_head(b"refs/heads/"), Err(Error::BranchHeadUnreadable));
    assert_eq!(read_head(b"refs/head/master"), Err(Error::BranchHeadUnreadable));
    assert_eq!(read_head(b""), Err(Error::BranchHeadUnreadable));
    assert_eq!(Refs::from_head(b"refs/heads/dev").ok().unwrap().head(), b"dev");
    assert!(Refs::from_head(b"dev").is_err());
}

#[test]
fn point_moves_or_adds_a_branch() {
    let mut refs = Refs::new();
    assert_eq!(refs.head(), b"master");
    assert_eq!(refs.commit_of(b"master"), None);
    refs.point(b"master", b"aaaa");
    refs.point(b"dev", b"bbbb");
    refs.point(b"master", b"cccc");
    assert_eq!(refs.len(), 2);
    assert_eq!(refs.commit_of(b"master"), Some(&bytes("cccc")));
    assert_eq!(refs.commit_of(b"dev"), Some(&bytes("bbbb")));
    assert_eq!(refs.position(b"dev"), 1);
    assert_eq!(refs.position(b"none"), 2);
    assert_eq!(refs.get(0).name, b"master");
}
