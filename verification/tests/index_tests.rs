use minigit::bytes::{compare, Rank};
use minigit::error::Error;
use minigit::index::{find_index, middle, Index, Kind, Record};
use minigit::lines::{read_index, read_line, write_index};

fn record(path: &str, kind: Kind, hash: &str) -> Record {
    Record { path: path.as_bytes().to_vec(), kind, hash: hash.as_bytes().to_vec() }
}

fn sample() -> Index {
    let mut index = Index::new();
    index.upsert(record("/r/c", Kind::Blob, "33"));
    index.upsert(record("/r/a", Kind::Blob, "11"));
    index.upsert(record("/r/e", Kind::Tree, "55"));
    index
}

fn paths(index: &Index) -> Vec<String> {
    (0..index.len()).map(|i| String::from_utf8(index.get(i).path.clone()).unwrap()).collect()
}

#[test]
fn compare_orders_bytes_lexicographically() {
    assert_eq!(compare(b"abc", b"abd"), Rank::Before);
    assert_eq!(compare(b"abd", b"abc"), Rank::After);
    assert_eq!(compare(b"abc", b"abc"), Rank::Same);
    assert_eq!(compare(b"ab", b"abc"), Rank::Before);
    assert_eq!(compare(b"abc", b"ab"), Rank::After);
    assert_eq!(compare(b"", b""), Rank::Same);
    assert_eq!(compare(b"", b"a"), Rank::Before);
    assert_eq!(compare(&[0xff], &[0x01, 0x02]), Rank::After);
}

#[test]
fn find_index_on_empty_index() {
    let index = Index::new();
    assert_eq!(find_index(&index, b"/r/a"), (0, -1));
}

#[test]
fn find_index_finds_present_paths() {
    let index = sample();
    for (at, path) in ["/r/a", "/r/c", "/r/e"].iter().enumerate() {
        let (lo, hi) = find_index(&index, path.as_bytes());
        assert!(lo as i128 <= hi);
        assert_eq!((lo as i128 + hi) / 2, at as i128);
        assert_eq!(middle((lo, hi)), at);
        assert_eq!(index.get(middle((lo, hi))).path, path.as_bytes());
    }
}

#[test]
fn find_index_gives_insertion_point_of_absent_paths() {
    let index = sample();
    assert_eq!(find_index(&index, b"/r"), (0, -1));
    assert_eq!(find_index(&index, b"/r/b"), (1, 0));
    assert_eq!(find_index(&index, b"/r/d"), (2, 1));
    assert_eq!(find_index(&index, b"/r/f"), (3, 2));
    assert_eq!(find_index(&index, b"/r/a/x"), (1, 0));
}

#[test]
fn lookup_gives_the_record_of_a_path() {
    let index = sample();
    assert_eq!(index.lookup(b"/r/c"), Some(&record("/r/c", Kind::Blob, "33")));
    assert_eq!(index.lookup(b"/r/e"), Some(&record("/r/e", Kind::Tree, "55")));
    assert_eq!(index.lookup(b"/r/b"), None);
    assert_eq!(index.lookup(b""), None);
    assert_eq!(Index::new().lookup(b"/r/a"), None);
}

#[test]
fn upsert_keeps_the_order_and_replaces_in_place() {
    let mut index = sample();
    assert_eq!(paths(&index), vec!["/r/a", "/r/c", "/r/e"]);
    index.upsert(record("/r/c", Kind::Tree, "99"));
    assert_eq!(paths(&index), vec!["/r/a", "/r/c", "/r/e"]);
    assert_eq!(*index.get(1), record("/r/c", Kind::Tree, "99"));
    index.upsert(record("/r", Kind::Tree, "00"));
    index.upsert(record("/r/d", Kind::Blob, "44"));
    index.upsert(record("/r/z", Kind::Blob, "77"));
    assert_eq!(paths(&index), vec!["/r", "/r/a", "/r/c", "/r/d", "/r/e", "/r/z"]);
}

#[test]
fn remove_deletes_a_present_path_and_ignores_an_absent_one() {
    let mut index = sample();
    index.remove(b"/r/c");
    assert_eq!(paths(&index), vec!["/r/a", "/r/e"]);
    index.remove(b"/r/c");
    index.remove(b"/r/b");
    assert_eq!(paths(&index), vec!["/r/a", "/r/e"]);
    index.remove(b"/r/a");
    index.remove(b"/r/e");
    assert_eq!(index.len(), 0);
}

#[test]
fn index_stays_sorted_under_many_changes() {
    let mut index = Index::new();
    let names = ["m", "b", "x", "a", "q", "b", "zz", "c", "m", "0"];
    for (i, name) in names.iter().enumerate() {
        index.upsert(record(&format!("/r/{name}"), Kind::Blob, &format!("{i}")));
        if i % 3 == 2 {
            index.remove(format!("/r/{}", names[i - 1]).as_bytes());
        }
        for k in 1..index.len() {
            assert_eq!(compare(&index.get(k - 1).path, &index.get(k).path), Rank::Before);
        }
    }
}

#[test]
fn propagation_spares_paths_off_the_way() {
    let mut index = Index::new();
    let mut store = minigit::store::ObjectStore::new();
    index.upsert(record("/r/a/b", Kind::Blob, "1"));
    index.upsert(record("/r/c", Kind::Tree, "2"));
    index.upsert(record("/r/c/d", Kind::Blob, "3"));
    minigit::propagate::updata_index(&mut index, &mut store, b"/r/a/b", b"/r", b'/').unwrap();
    assert_eq!(index.lookup(b"/r/a/b"), Some(&record("/r/a/b", Kind::Blob, "1")));
    assert_eq!(index.lookup(b"/r/c"), Some(&record("/r/c", Kind::Tree, "2")));
    assert_eq!(index.lookup(b"/r/c/d"), Some(&record("/r/c/d", Kind::Blob, "3")));
    assert_eq!(index.get(0).path, b"/r");
    assert_eq!(index.len(), 5);
}

#[test]
fn root_sorts_before_all_paths_below_it() {
    let mut index = Index::new();
    index.upsert(record("/repo/a.txt", Kind::Blob, "1"));
    index.upsert(record("/repo/-x", Kind::Blob, "2"));
    index.upsert(record("/repo", Kind::Tree, "3"));
    assert_eq!(index.get(0).path, b"/repo");
}

#[test]
fn write_index_gives_one_line_per_record() {
    let index = sample();
    assert_eq!(write_index(&index), b"/r/a blob 11\n/r/c blob 33\n/r/e tree 55\n".to_vec());
    assert_eq!(write_index(&Index::new()), Vec::<u8>::new());
}

#[test]
fn read_index_reads_back_what_write_index_wrote() {
    let index = sample();
    let back = read_index(&write_index(&index)).unwrap();
    assert_eq!(back.len(), 3);
    for i in 0..3 {
        assert_eq!(back.get(i), index.get(i));
    }
    assert_eq!(read_index(b"").unwrap().len(), 0);
}

#[test]
fn read_line_splits_at_the_first_two_spaces() {
    assert_eq!(read_line(b"/r/a blob 11"), Some(record("/r/a", Kind::Blob, "11")));
    assert_eq!(read_line(b"/r/a tree 1 1"), Some(record("/r/a", Kind::Tree, "1 1")));
    assert_eq!(read_line(b" blob "), Some(record("", Kind::Blob, "")));
    assert_eq!(read_line(b"/r/a blob"), None);
    assert_eq!(read_line(b"/r/a"), None);
    assert_eq!(read_line(b""), None);
    assert_eq!(read_line(b"/r/a blub 11"), None);
    assert_eq!(read_line(b"/r/a trees 11"), None);
}

#[test]
fn read_index_refuses_corrupt_text() {
    assert_eq!(read_index(b"/r/a blob 11").err(), Some(Error::IndexCorrupt));
    assert_eq!(read_index(b"/r/a blob 11\n/r/c").err(), Some(Error::IndexCorrupt));
    assert_eq!(read_index(b"/r/a file 11\n").err(), Some(Error::IndexCorrupt));
    assert_eq!(read_index(b"\n").err(), Some(Error::IndexCorrupt));
    assert_eq!(read_index(b"/r/c blob 33\n/r/a blob 11\n").err(), Some(Error::IndexCorrupt));
    assert_eq!(read_index(b"/r/a blob 11\n/r/a blob 11\n").err(), Some(Error::IndexCorrupt));
}
