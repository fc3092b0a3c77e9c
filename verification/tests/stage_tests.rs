use minigit::assemble::{save_blob, save_tree, Node};
use minigit::blob::blob_payload;
use minigit::digest::fingerprint;
use minigit::error::Error;
use minigit::index::{find_index, middle, Index, Kind, Record};
use minigit::propagate::updata_index;
use minigit::stage::{add, remove_index, remove_object, rm, save_object, Removal};
use minigit::store::ObjectStore;
use minigit::tree::{is_child, tree_from_index};

fn bytes(s: &str) -> Vec<u8> {
    s.as_bytes().to_vec()
}

fn file(path: &str, contents: &[u8]) -> Node {
    Node::Blob { path: bytes(path), payload: blob_payload(contents).unwrap() }
}

fn dir(path: &str, children: Vec<Node>) -> Node {
    Node::Tree { path: bytes(path), children }
}

fn lookup<'a>(index: &'a Index, path: &str) -> Option<&'a Record> {
    let found = find_index(index, path.as_bytes());
    if found.0 as i128 <= found.1 {
        Some(index.get(middle(found)))
    } else {
        None
    }
}

fn paths(index: &Index) -> Vec<String> {
    (0..index.len()).map(|i| String::from_utf8(index.get(i).path.clone()).unwrap()).collect()
}

fn payload_of<'a>(store: &'a ObjectStore, key: &[u8]) -> &'a Vec<u8> {
    &store.get(store.position(key).unwrap()).payload
}

fn line(kind: &str, hash: &[u8], name: &str) -> Vec<u8> {
    let mut out = bytes(kind);
    out.push(b' ');
    out.extend_from_slice(hash);
    out.push(b' ');
    out.extend_from_slice(name.as_bytes());
    out.push(0);
    out
}

fn tree_of(index: &Index, store: &ObjectStore, path: &str) -> Vec<u8> {
    let record = lookup(index, path).unwrap();
    assert_eq!(record.kind, Kind::Tree);
    payload_of(store, &record.hash).clone()
}

fn check_consistent(index: &Index, store: &ObjectStore, dirs: &[&str], sep: u8) {
    for d in dirs {
        let record = lookup(index, d).unwrap();
        assert_eq!(record.kind, Kind::Tree);
        let payload = tree_from_index(index, d.as_bytes(), sep);
        assert_eq!(record.hash, fingerprint(&payload).unwrap());
        assert_eq!(*payload_of(store, &record.hash), payload);
    }
}

fn work_tree() -> (Index, ObjectStore) {
    let mut index = Index::new();
    let mut store = ObjectStore::new();
    let nodes = vec![
        file("C:\\work\\test\\1.txt", b"Hello First World!"),
        dir("C:\\work\\test\\.minigit", vec![file("C:\\work\\test\\.minigit\\HEAD", b"refs/heads/master")]),
        dir("C:\\work\\test\\test_dir", vec![file("C:\\work\\test\\test_dir\\2.txt", b"Hello Second World!")]),
    ];
    add(&nodes, &mut index, &mut store, b"C:\\work\\test", b'\\').unwrap();
    (index, store)
}

#[test]
fn tree_from_index_lists_direct_children_only() {
    let mut index = Index::new();
    for (path, kind, hash) in [
        ("/r", Kind::Tree, "h0"),
        ("/r/a", Kind::Tree, "h1"),
        ("/r/a-b", Kind::Blob, "h2"),
        ("/r/a/x", Kind::Blob, "h3"),
        ("/r/a/y", Kind::Tree, "h4"),
        ("/r/a/y/z", Kind::Blob, "h5"),
        ("/r/ab", Kind::Blob, "h6"),
        ("/r/b", Kind::Blob, "h7"),
    ] {
        index.upsert(Record { path: bytes(path), kind, hash: bytes(hash) });
    }
    let mut expected = bytes("tree\0");
    expected.extend(line("blob", b"h3", "x"));
    expected.extend(line("tree", b"h4", "y"));
    assert_eq!(tree_from_index(&index, b"/r/a", b'/'), expected);

    let mut root = bytes("tree\0");
    root.extend(line("tree", b"h1", "a"));
    root.extend(line("blob", b"h2", "a-b"));
    root.extend(line("blob", b"h6", "ab"));
    root.extend(line("blob", b"h7", "b"));
    assert_eq!(tree_from_index(&index, b"/r", b'/'), root);

    assert_eq!(tree_from_index(&index, b"/r/none", b'/'), bytes("tree\0"));
    assert_eq!(tree_from_index(&index, b"/r/b", b'/'), bytes("tree\0"));
    assert_eq!(tree_from_index(&Index::new(), b"/r", b'/'), bytes("tree\0"));
}

#[test]
fn is_child_compares_the_whole_parent() {
    assert!(is_child(b"/r/a/x", b"/r/a", b'/'));
    assert!(!is_child(b"/r/a/x/y", b"/r/a", b'/'));
    assert!(!is_child(b"/r/ab", b"/r/a", b'/'));
    assert!(!is_child(b"/r/a", b"/r/a", b'/'));
    assert!(!is_child(b"", b"", b'/'));
    assert!(is_child(b"x", b"", b'/'));
}

#[test]
fn save_blob_stores_and_enters_the_file() {
    let mut index = Index::new();
    let mut store = ObjectStore::new();
    let payload = blob_payload(b"Hello").unwrap();
    let key = save_blob(b"/r/1.txt", &payload, &mut index, &mut store).unwrap();
    assert_eq!(key, fingerprint(&payload).unwrap());
    assert_eq!(index.len(), 1);
    assert_eq!(*index.get(0), Record { path: bytes("/r/1.txt"), kind: Kind::Blob, hash: key.clone() });
    assert_eq!(store.len(), 1);
    assert_eq!(*payload_of(&store, &key), payload);
}

#[test]
fn save_tree_lists_entries_in_the_order_read() {
    let mut index = Index::new();
    let mut store = ObjectStore::new();
    let node = dir(
        "/r/d",
        vec![file("/r/d/z.txt", b"z"), dir("/r/d/sub", vec![]), file("/r/d/a.txt", b"a")],
    );
    let key = save_tree(&node, &mut index, &mut store, b'/').unwrap();
    let hz = fingerprint(&blob_payload(b"z").unwrap()).unwrap();
    let ha = fingerprint(&blob_payload(b"a").unwrap()).unwrap();
    let hsub = fingerprint(b"tree\0").unwrap();
    let mut expected = bytes("tree\0");
    expected.extend(line("blob", &hz, "z.txt"));
    expected.extend(line("tree", &hsub, "sub"));
    expected.extend(line("blob", &ha, "a.txt"));
    assert_eq!(key, fingerprint(&expected).unwrap());
    assert_eq!(*payload_of(&store, &key), expected);
    assert_eq!(paths(&index), vec!["/r/d", "/r/d/a.txt", "/r/d/sub", "/r/d/z.txt"]);
    assert_eq!(lookup(&index, "/r/d").unwrap().hash, key);
    assert_eq!(lookup(&index, "/r/d/sub").unwrap().kind, Kind::Tree);
    assert_eq!(store.len(), 4);
}

#[test]
fn propagation_builds_every_tree_up_to_the_root() {
    let mut index = Index::new();
    let mut store = ObjectStore::new();
    let node = file("/repo/a/b/c.txt", b"contents");
    save_object(&node, &mut index, &mut store, b"/repo", b'/').unwrap();
    assert_eq!(paths(&index), vec!["/repo", "/repo/a", "/repo/a/b", "/repo/a/b/c.txt"]);
    let hc = lookup(&index, "/repo/a/b/c.txt").unwrap().hash.clone();
    let mut ab = bytes("tree\0");
    ab.extend(line("blob", &hc, "c.txt"));
    assert_eq!(tree_of(&index, &store, "/repo/a/b"), ab);
    let mut a = bytes("tree\0");
    a.extend(line("tree", &fingerprint(&ab).unwrap(), "b"));
    assert_eq!(tree_of(&index, &store, "/repo/a"), a);
    let mut root = bytes("tree\0");
    root.extend(line("tree", &fingerprint(&a).unwrap(), "a"));
    assert_eq!(tree_of(&index, &store, "/repo"), root);
    check_consistent(&index, &store, &["/repo", "/repo/a", "/repo/a/b"], b'/');
}

#[test]
fn propagation_lists_neither_deeper_nor_neighbouring_paths() {
    let mut index = Index::new();
    let mut store = ObjectStore::new();
    index.upsert(Record { path: bytes("/r/a/b/c.txt"), kind: Kind::Blob, hash: bytes("h1") });
    index.upsert(Record { path: bytes("/r/ab"), kind: Kind::Blob, hash: bytes("h2") });
    assert_eq!(updata_index(&mut index, &mut store, b"/r/a/b/c.txt", b"/r", b'/'), Ok(()));
    assert_eq!(paths(&index), vec!["/r", "/r/a", "/r/a/b", "/r/a/b/c.txt", "/r/ab"]);
    assert_eq!(*index.get(3), Record { path: bytes("/r/a/b/c.txt"), kind: Kind::Blob, hash: bytes("h1") });
    assert_eq!(*index.get(4), Record { path: bytes("/r/ab"), kind: Kind::Blob, hash: bytes("h2") });
    let ab = b"tree\0blob h1 c.txt\0".to_vec();
    assert_eq!(tree_of(&index, &store, "/r/a/b"), ab);
    let mut a = bytes("tree\0");
    a.extend(line("tree", &fingerprint(&ab).unwrap(), "b"));
    assert_eq!(tree_of(&index, &store, "/r/a"), a);
    let mut root = bytes("tree\0");
    root.extend(line("tree", &fingerprint(&a).unwrap(), "a"));
    root.extend(line("blob", b"h2", "ab"));
    assert_eq!(tree_of(&index, &store, "/r"), root);
    assert_eq!(store.len(), 3);
}

#[test]
fn propagation_reaches_a_root_that_is_a_drive() {
    let mut index = Index::new();
    let mut store = ObjectStore::new();
    save_object(&file("C:\\repo\\f", b"f"), &mut index, &mut store, b"C:\\repo", b'\\').unwrap();
    assert_eq!(paths(&index), vec!["C:\\repo", "C:\\repo\\f"]);
    let mut at_root = Index::new();
    assert_eq!(
        save_object(&file("/f", b"f"), &mut at_root, &mut store, b"/", b'/'),
        Err(Error::InvalidPath)
    );
    assert_eq!(paths(&at_root), vec!["/", "/f"]);
    assert_eq!(lookup(&at_root, "/").unwrap().kind, Kind::Tree);
}

#[test]
fn propagation_is_idempotent() {
    let mut index = Index::new();
    let mut store = ObjectStore::new();
    save_object(&file("/repo/a/b/c.txt", b"contents"), &mut index, &mut store, b"/repo", b'/').unwrap();
    let before: Vec<Record> = (0..index.len()).map(|i| index.get(i).clone()).collect();
    let objects = store.len();
    updata_index(&mut index, &mut store, b"/repo/a/b/c.txt", b"/repo", b'/').unwrap();
    let after: Vec<Record> = (0..index.len()).map(|i| index.get(i).clone()).collect();
    assert_eq!(before, after);
    assert_eq!(store.len(), objects);
}

#[test]
fn propagation_stops_at_the_root() {
    let mut index = Index::new();
    let mut store = ObjectStore::new();
    save_object(&file("/top/repo/f", b"f"), &mut index, &mut store, b"/top/repo", b'/').unwrap();
    assert_eq!(paths(&index), vec!["/top/repo", "/top/repo/f"]);
    let mut other = Index::new();
    updata_index(&mut other, &mut store, b"/elsewhere/f", b"/top/repo", b'/').unwrap();
    assert_eq!(other.len(), 0);
    let mut beside = Index::new();
    updata_index(&mut beside, &mut store, b"/top/repository/f", b"/top/repo", b'/').unwrap();
    assert_eq!(beside.len(), 0);
}

#[test]
fn propagation_of_an_empty_path_is_invalid() {
    let mut index = Index::new();
    let mut store = ObjectStore::new();
    assert_eq!(updata_index(&mut index, &mut store, b"", b"/repo", b'/'), Err(Error::InvalidPath));
    assert_eq!(index.len(), 0);
}

#[test]
fn a_directory_left_empty_keeps_its_entry() {
    let mut index = Index::new();
    let mut store = ObjectStore::new();
    save_object(&file("/repo/d/only", b"x"), &mut index, &mut store, b"/repo", b'/').unwrap();
    remove_index(&mut index, &mut store, b"/repo/d/only", b"/repo", b'/').unwrap();
    assert_eq!(paths(&index), vec!["/repo", "/repo/d"]);
    assert_eq!(lookup(&index, "/repo/d").unwrap().hash, fingerprint(b"tree\0").unwrap());
    check_consistent(&index, &store, &["/repo", "/repo/d"], b'/');
}

#[test]
fn the_repository_directory_is_never_staged() {
    let mut index = Index::new();
    let mut store = ObjectStore::new();
    let node = dir("/repo/.minigit", vec![file("/repo/.minigit/HEAD", b"refs/heads/master")]);
    save_object(&node, &mut index, &mut store, b"/repo", b'/').unwrap();
    assert_eq!(index.len(), 0);
    assert_eq!(store.len(), 0);
    let removal = Removal { path: bytes("/repo/.minigit"), is_dir: true, below: vec![] };
    remove_object(&removal, &mut index, &mut store, b"/repo", b'/').unwrap();
    assert_eq!(index.len(), 0);
}

#[test]
fn test_add() {
    let (index, store) = work_tree();
    assert_eq!(
        paths(&index),
        vec![
            "C:\\work\\test",
            "C:\\work\\test\\1.txt",
            "C:\\work\\test\\test_dir",
            "C:\\work\\test\\test_dir\\2.txt",
        ]
    );
    assert_eq!(lookup(&index, "C:\\work\\test\\1.txt").unwrap().kind, Kind::Blob);
    assert_eq!(
        lookup(&index, "C:\\work\\test\\1.txt").unwrap().hash,
        fingerprint(&blob_payload(b"Hello First World!").unwrap()).unwrap()
    );
    assert_eq!(
        lookup(&index, "C:\\work\\test\\test_dir\\2.txt").unwrap().hash,
        fingerprint(&blob_payload(b"Hello Second World!").unwrap()).unwrap()
    );
    check_consistent(&index, &store, &["C:\\work\\test", "C:\\work\\test\\test_dir"], b'\\');
}

#[test]
fn test_rm() {
    let (mut index, mut store) = work_tree();
    let removals =
        vec![Removal { path: bytes("C:\\work\\test\\test_dir\\2.txt"), is_dir: false, below: vec![] }];
    rm(&removals, &mut index, &mut store, b"C:\\work\\test", b'\\').unwrap();
    assert_eq!(
        paths(&index),
        vec!["C:\\work\\test", "C:\\work\\test\\1.txt", "C:\\work\\test\\test_dir"]
    );
    assert_eq!(
        lookup(&index, "C:\\work\\test\\test_dir").unwrap().hash,
        fingerprint(b"tree\0").unwrap()
    );
    check_consistent(&index, &store, &["C:\\work\\test", "C:\\work\\test\\test_dir"], b'\\');
}

#[test]
fn rm_of_a_directory_takes_out_all_below_it() {
    let (mut index, mut store) = work_tree();
    let removals = vec![Removal {
        path: bytes("C:\\work\\test\\test_dir"),
        is_dir: true,
        below: vec![bytes("C:\\work\\test\\test_dir\\2.txt")],
    }];
    rm(&removals, &mut index, &mut store, b"C:\\work\\test", b'\\').unwrap();
    assert_eq!(paths(&index), vec!["C:\\work\\test", "C:\\work\\test\\1.txt"]);
    check_consistent(&index, &store, &["C:\\work\\test"], b'\\');
}

#[test]
fn rm_of_an_untracked_path_only_rebuilds_the_trees() {
    let (mut index, mut store) = work_tree();
    let before: Vec<Record> = (0..index.len()).map(|i| index.get(i).clone()).collect();
    let removals = vec![Removal { path: bytes("C:\\work\\test\\none"), is_dir: false, below: vec![] }];
    rm(&removals, &mut index, &mut store, b"C:\\work\\test", b'\\').unwrap();
    let after: Vec<Record> = (0..index.len()).map(|i| index.get(i).clone()).collect();
    assert_eq!(before, after);
}

#[test]
fn add_again_after_a_change_updates_the_hashes() {
    let (mut index, mut store) = work_tree();
    let old_root = lookup(&index, "C:\\work\\test").unwrap().hash.clone();
    let old_dir = lookup(&index, "C:\\work\\test\\test_dir").unwrap().hash.clone();
    let nodes = vec![file("C:\\work\\test\\1.txt", b"Changed")];
    add(&nodes, &mut index, &mut store, b"C:\\work\\test", b'\\').unwrap();
    assert_eq!(index.len(), 4);
    assert_ne!(lookup(&index, "C:\\work\\test").unwrap().hash, old_root);
    assert_eq!(lookup(&index, "C:\\work\\test\\test_dir").unwrap().hash, old_dir);
    check_consistent(&index, &store, &["C:\\work\\test", "C:\\work\\test\\test_dir"], b'\\');
}
