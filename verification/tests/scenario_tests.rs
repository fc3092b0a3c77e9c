use minigit::assemble::Node;
use minigit::blob::blob_payload;
use minigit::commit::commit;
use minigit::config::{checkout, merge, run, Config, Operation};
use minigit::digest::fingerprint;
use minigit::error::Error;
use minigit::index::{Index, Kind};
use minigit::layout::{find_minigit, init, layout, object_file, resolve, Search, Target};
use minigit::lines::write_index;
use minigit::path::{file_name, join, parent, within};
use minigit::refs::{write_head, Refs};
use minigit::stage::add;
use minigit::store::ObjectStore;

fn bytes(s: &str) -> Vec<u8> {
    s.as_bytes().to_vec()
}

fn config(operate: &str, argument: &[&str]) -> Config {
    Config { operate: operate.to_string(), argument: argument.iter().map(|a| a.to_string()).collect() }
}

#[test]
fn init_add_commit() {
    let paths = init(b"/home/me", b"repo", b'/');
    assert_eq!(paths.index, b"/home/me/repo/.minigit/index");
    assert_eq!(paths.head, b"/home/me/repo/.minigit/HEAD");
    let mut index = Index::new();
    let mut store = ObjectStore::new();
    let mut refs = Refs::new();
    assert_eq!(write_index(&index), Vec::<u8>::new());
    assert_eq!(write_head(refs.head()), b"refs/heads/master".to_vec());
    assert_eq!(refs.commit_of(b"master"), None);

    let root = b"/home/me/repo";
    let payload = blob_payload(b"Hello").unwrap();
    let nodes = vec![Node::Blob { path: bytes("/home/me/repo/1.txt"), payload: payload.clone() }];
    add(&nodes, &mut index, &mut store, root, b'/').unwrap();
    let lines: Vec<usize> =
        (0..index.len()).filter(|&i| index.get(i).path == b"/home/me/repo/1.txt").collect();
    assert_eq!(lines.len(), 1);
    let record = index.get(lines[0]);
    assert_eq!(record.kind, Kind::Blob);
    assert_eq!(record.hash, fingerprint(&payload).unwrap());
    let at = store.position(&record.hash).unwrap();
    assert_eq!(store.get(at).payload, payload);
    let file = object_file(&record.hash, b'/');
    assert_eq!(&file[..2], &record.hash[..2]);
    assert_eq!(file[2], b'/');
    assert_eq!(&file[3..], &record.hash[2..]);

    let key = commit(&index, &mut store, &mut refs, root, b"me", b"msg").unwrap();
    let branch = refs.commit_of(b"master").unwrap();
    assert_eq!(branch.len(), 40);
    assert!(branch.iter().all(|b| b.is_ascii_hexdigit()));
    assert_eq!(*branch, key);
    assert_eq!(*branch, fingerprint(&store.get(store.position(&key).unwrap()).payload).unwrap());
}

#[test]
fn build_skips_the_name_of_the_program() {
    let words = vec!["minigit", "add", "a.txt", "b.txt"];
    let config = Config::build(words.iter().map(|w| w.to_string())).unwrap();
    assert_eq!(config.operate, "add");
    assert_eq!(config.argument, vec!["a.txt".to_string(), "b.txt".to_string()]);
    let config = Config::build(vec!["minigit".to_string(), "branch".to_string()].into_iter()).unwrap();
    assert_eq!((config.operate.as_str(), config.argument.len()), ("branch", 0));
}

#[test]
fn build_needs_an_operation() {
    let one = vec!["minigit".to_string()];
    assert_eq!(Config::build(one.into_iter()).err(), Some("Didn't get operate string in input"));
    let none: Vec<String> = vec![];
    assert_eq!(Config::build(none.into_iter()).err(), Some("Didn't get operate string in input"));
}

#[test]
fn test_run() {
    let config: Config = Config { operate: "init".to_string(), argument: vec!["test".to_string()] };
    assert_eq!(run(&config), Ok(Operation::Init));
}

#[test]
fn run_tells_the_operation() {
    assert_eq!(run(&config("add", &["a"])), Ok(Operation::Add));
    assert_eq!(run(&config("add", &[])), Ok(Operation::Add));
    assert_eq!(run(&config("rm", &["a"])), Ok(Operation::Rm));
    assert_eq!(run(&config("commit", &["msg"])), Ok(Operation::Commit));
    assert_eq!(run(&config("branch", &[])), Ok(Operation::Branch));
    assert_eq!(run(&config("init", &[])), Err(Error::MissingArgument));
    assert_eq!(run(&config("commit", &[])), Err(Error::MissingArgument));
    assert_eq!(run(&config("checkout", &["b"])), Err(Error::NotYetSupported));
    assert_eq!(run(&config("merge", &["b"])), Err(Error::NotYetSupported));
    assert_eq!(run(&config("status", &[])), Err(Error::UnknownOperation));
    assert_eq!(run(&config("", &[])), Err(Error::UnknownOperation));
    assert_eq!(checkout(), Err(Error::NotYetSupported));
    assert_eq!(merge(), Err(Error::NotYetSupported));
}

#[test]
fn test_init() {
    let name = "test".to_string();
    let paths = init(b"C:\\work", name.as_bytes(), b'\\');
    assert_eq!(paths.repository, b"C:\\work\\test\\.minigit");
    assert_eq!(paths.objects, b"C:\\work\\test\\.minigit\\objects");
    assert_eq!(paths.heads, b"C:\\work\\test\\.minigit\\refs\\heads");
    assert_eq!(paths.index, b"C:\\work\\test\\.minigit\\index");
    assert_eq!(paths.head, b"C:\\work\\test\\.minigit\\HEAD");
    assert_eq!(layout(b"/r/.minigit", b'/').heads, b"/r/.minigit/refs/heads");
}

#[test]
fn find_minigit_looks_at_names_and_walks_up() {
    let entries = vec![bytes("/a/b/x"), bytes("/a/b/.minigit"), bytes("/a/b/y")];
    assert_eq!(find_minigit(b"/a/b", &entries, b'/'), Ok(Search::Found(bytes("/a/b/.minigit"))));
    let none = vec![bytes("/a/b/x"), bytes("/a/b/.minigit.bak"), bytes("/a/b/minigit")];
    assert_eq!(find_minigit(b"/a/b", &none, b'/'), Ok(Search::Up(bytes("/a"))));
    assert_eq!(find_minigit(b"/a", &vec![], b'/'), Ok(Search::Up(bytes("/"))));
    assert_eq!(find_minigit(b"/", &vec![bytes("/.minigit")], b'/'), Ok(Search::Found(bytes("/.minigit"))));
    assert_eq!(find_minigit(b"/", &vec![bytes("/a")], b'/'), Err(Error::RepositoryNotFound));
    assert_eq!(find_minigit(b"", &vec![], b'/'), Err(Error::RepositoryNotFound));
    assert_eq!(find_minigit(b"C:\\a", &vec![], b'\\'), Ok(Search::Up(bytes("C:\\"))));
    assert_eq!(find_minigit(b"C:\\", &vec![], b'\\'), Err(Error::RepositoryNotFound));
}

#[test]
fn resolve_turns_a_final_dot_into_a_star() {
    assert_eq!(resolve(b"/w", b"a.txt", b'/'), Ok(Target::Single(bytes("/w/a.txt"))));
    assert_eq!(resolve(b"/w", b"d/a.txt", b'/'), Ok(Target::Single(bytes("/w/d/a.txt"))));
    assert_eq!(resolve(b"/w", b"/x/a.txt", b'/'), Ok(Target::Single(bytes("/x/a.txt"))));
    assert_eq!(resolve(b"/w", b"*", b'/'), Ok(Target::Entries(bytes("/w"))));
    assert_eq!(resolve(b"/w", b".", b'/'), Ok(Target::Entries(bytes("/w"))));
    assert_eq!(resolve(b"/w", b"d/.", b'/'), Ok(Target::Entries(bytes("/w/d"))));
    assert_eq!(resolve(b"/w", b"..", b'/'), Ok(Target::Single(bytes("/w/.*"))));
    assert_eq!(resolve(b"/w", b"d/", b'/'), Err(Error::InvalidPath));
    assert_eq!(resolve(b"/w", b"", b'/'), Err(Error::InvalidPath));
    assert_eq!(
        resolve(b"C:\\w", b"test_dir\\2.txt", b'\\'),
        Ok(Target::Single(bytes("C:\\w\\test_dir\\2.txt")))
    );
    assert_eq!(resolve(b"C:\\w", b"D:\\x", b'\\'), Ok(Target::Single(bytes("D:\\x"))));
    assert_eq!(resolve(b"C:\\w", b"\\x", b'\\'), Ok(Target::Single(bytes("C:\\x"))));
    assert_eq!(resolve(b"C:\\", b"x", b'\\'), Ok(Target::Single(bytes("C:\\x"))));
    assert_eq!(resolve(b"/", b"x", b'/'), Ok(Target::Single(bytes("/x"))));
    assert_eq!(resolve(b"/", b"*", b'/'), Ok(Target::Entries(bytes("/"))));
    assert_eq!(resolve(b"/w", b"C:/x", b'/'), Ok(Target::Single(bytes("/w/C:/x"))));
}

#[test]
fn join_puts_a_name_behind_a_directory() {
    assert_eq!(join(b"/a", b"b", b'/'), bytes("/a/b"));
    assert_eq!(join(b"/", b"b", b'/'), bytes("/b"));
    assert_eq!(join(b"", b"b", b'/'), bytes("b"));
    assert_eq!(join(b"/a", b"", b'/'), bytes("/a/"));
    assert_eq!(join(b"/a", b"/b", b'/'), bytes("/b"));
    assert_eq!(join(b"C:\\a", b"b", b'\\'), bytes("C:\\a\\b"));
    assert_eq!(join(b"C:\\a", b"\\b", b'\\'), bytes("C:\\b"));
    assert_eq!(join(b"C:\\a", b"d:b", b'\\'), bytes("d:b"));
    assert_eq!(join(b"\\a", b"\\b", b'\\'), bytes("\\b"));
}

#[test]
fn paths_split_at_the_last_separator() {
    assert_eq!(parent(b"/a/b/c.txt", b'/'), Some(bytes("/a/b")));
    assert_eq!(file_name(b"/a/b/c.txt", b'/'), bytes("c.txt"));
    assert_eq!(parent(b"/a", b'/'), Some(bytes("/")));
    assert_eq!(parent(b"/", b'/'), None);
    assert_eq!(parent(b"C:\\a", b'\\'), Some(bytes("C:\\")));
    assert_eq!(parent(b"C:\\a\\b", b'\\'), Some(bytes("C:\\a")));
    assert_eq!(parent(b"C:\\", b'\\'), None);
    assert_eq!(parent(b"C:a", b'\\'), Some(bytes("C:")));
    assert_eq!(file_name(b"C:a", b'\\'), bytes("a"));
    assert_eq!(file_name(b"/a", b'/'), bytes("a"));
    assert_eq!(file_name(b"/", b'/'), bytes(""));
    assert_eq!(parent(b"a", b'/'), Some(bytes("")));
    assert_eq!(file_name(b"a", b'/'), bytes("a"));
    assert_eq!(parent(b"", b'/'), None);
    assert_eq!(file_name(b"/a/", b'/'), bytes(""));
    assert!(within(b"/a/b", b"/a", b'/'));
    assert!(within(b"/a", b"/a", b'/'));
    assert!(!within(b"/ab", b"/a", b'/'));
    assert!(!within(b"/", b"/a", b'/'));
    assert!(within(b"/a", b"/", b'/'));
}

#[test]
fn errors_describe_themselves() {
    assert_eq!(Error::NoIndexEntry.to_string(), "nothing is staged");
    assert_eq!(Error::ClockUnreadable.to_string(), "the clock cannot be read");
    assert_ne!(Error::BranchNotFound.to_string(), Error::BranchAlreadyExists.to_string());
}
