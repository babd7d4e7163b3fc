use patchsync::chunker::chunk;
use patchsync::dirwalker::{after_visit, visit, Found, PathEntry, WalkState};
use patchsync::error::Error;
use patchsync::listing::Snapshot;
use patchsync::path::FilePath;
use patchsync::snapshot::PathKey;
use patchsync::text::decimal_text;

fn path(text: &str) -> FilePath {
    FilePath::from_bytes(text.as_bytes())
}

fn text(path: &FilePath) -> String {
    String::from_utf8(path.as_bytes().to_vec()).unwrap()
}

fn parts(text: &str) -> Vec<String> {
    path(text)
        .components()
        .into_iter()
        .map(|p| String::from_utf8(p).unwrap())
        .collect()
}

fn dir(text: &str) -> PathEntry {
    PathEntry::Dir { path: path(text) }
}

fn file(text: &str, data: &str) -> PathEntry {
    PathEntry::File { path: path(text), chunks: chunk(data.as_bytes()) }
}

#[test]
fn test_path_entry_methods() {
    let root = path("/tmp/root");
    let dir_entry = PathEntry::Dir { path: root.join(&path("sub/dir")) };
    assert_eq!(text(&dir_entry.into_path()), text(&root.join(&path("sub/dir"))));
    assert_eq!(text(&dir_entry.into_path_root_trimmed(&root).unwrap()), "sub/dir");

    let file_entry = PathEntry::File { path: root.join(&path("sub/file.txt")), chunks: vec![] };
    assert_eq!(text(&file_entry.into_path()), text(&root.join(&path("sub/file.txt"))));
    assert_eq!(text(&file_entry.into_path_root_trimmed(&root).unwrap()), "sub/file.txt");

    let invalid_root = path("/other/root");
    assert!(dir_entry.into_path_root_trimmed(&invalid_root).is_err());
}

#[test]
fn test_path_key_conversions() {
    let p = path("foo/bar/baz.txt");
    let pk1 = PathKey::from(&p);
    let pk2 = PathKey::from(p.clone());
    assert_eq!(pk1, pk2);

    let root = path("/root");
    let full = path("/root/sub/file.txt");
    let pk_from_paths = PathKey::from_paths(&root, &full);
    assert_eq!(pk_from_paths.as_str(), "sub/file.txt");

    let entry = PathEntry::File { path: full.clone(), chunks: vec![] };
    let pk_from_entry = PathKey::from_pathentry(&root, &entry).unwrap();
    assert_eq!(pk_from_entry.as_str(), "sub/file.txt");
}

#[test]
fn paths_are_read_as_components() {
    assert_eq!(parts(""), Vec::<String>::new());
    assert_eq!(parts("/"), vec!["/"]);
    assert_eq!(parts("a/b"), vec!["a", "b"]);
    assert_eq!(parts("/a//b/./c/"), vec!["/", "a", "b", "c"]);
    assert_eq!(parts("./a"), vec![".", "a"]);
    assert_eq!(parts("/./a"), vec!["/", "a"]);
    assert_eq!(parts("a/../b"), vec!["a", "..", "b"]);
}

#[test]
fn a_path_keeps_its_spelling() {
    for t in ["", "/", "a", "/a/b", "./x", "a/../b", "//a///b/", "a/./b/."] {
        assert_eq!(text(&path(t)), t);
        assert_eq!(path(t).display(), t);
    }
}

#[test]
fn joining_paths() {
    assert_eq!(text(&path("/r").join(&path("a/b"))), "/r/a/b");
    assert_eq!(text(&path("/r").join(&path("/abs"))), "/abs");
    assert_eq!(text(&path("/r").join(&path(""))), "/r/");
    assert_eq!(text(&path("/r/").join(&path("a//b/"))), "/r/a//b/");
    assert_eq!(text(&path("/r").join(&path("./a"))), "/r/./a");
    assert_eq!(text(&path("").join(&path("./a"))), "./a");
    assert_eq!(parts("/r/./a"), vec!["/", "r", "a"]);
    assert!(path("/abs").is_absolute());
    assert!(!path("abs").is_absolute());
}

#[test]
fn joining_texts_joins_components() {
    for base in ["/r", "/r/", "r//s", "."] {
        for rest in ["a", "a/./b//c/", "x."] {
            let mut expected = parts(base);
            expected.extend(parts(rest));
            assert_eq!(parts(&text(&path(base).join(&path(rest)))), expected);
        }
    }
}

#[test]
fn the_parent_of_a_path() {
    let parent = |t: &str| path(t).parent().map(|p| text(&p));
    assert_eq!(parent("/a/b").unwrap(), "/a");
    assert_eq!(parent("/a").unwrap(), "/");
    assert_eq!(parent("a").unwrap(), "");
    assert_eq!(parent("a//b//c/").unwrap(), "a//b");
    assert_eq!(parent("a/./b/.").unwrap(), "a");
    assert_eq!(parent("//a").unwrap(), "/");
    assert_eq!(parent("./a").unwrap(), ".");
    assert_eq!(parent(".").unwrap(), "");
    assert_eq!(parent("a/..").unwrap(), "a");
    assert!(parent("/").is_none());
    assert!(parent("//.").is_none());
    assert!(parent("").is_none());
}

#[test]
fn stripping_a_root_and_joining_it_again() {
    let strip = |t: &str, root: &str| path(t).strip_prefix(&path(root)).map(|p| text(&p));
    assert_eq!(strip("/r/s/t/u", "/r/s").unwrap(), "t/u");
    assert_eq!(strip("/r//s/./t//u/", "/r/s/").unwrap(), "t//u");
    assert_eq!(strip("/r/.a", "/r").unwrap(), ".a");
    assert_eq!(strip("/r/..", "/r").unwrap(), "..");
    assert_eq!(strip("//a/b", "/").unwrap(), "a/b");
    assert_eq!(strip("./a", ".").unwrap(), "a");
    assert_eq!(strip("/r/s/", "/r/s").unwrap(), "");
    assert_eq!(strip("/a/b//", "").unwrap(), "/a/b");
    assert!(strip("/r/sx", "/r/s").is_none());
    assert!(strip("/r", "/r/s").is_none());
    let root = path("/r/s");
    let rest = path("/r/s/t/u").strip_prefix(&root).unwrap();
    assert_eq!(text(&root.join(&rest)), "/r/s/t/u");
}

#[test]
fn text_that_is_no_utf8_is_replaced() {
    let p = FilePath::from_bytes(&[b'a', 0xff, b'b', b'/', b'c']);
    assert_eq!(p.display(), "a\u{fffd}b/c");
    assert_eq!(PathKey::from(&p).as_str(), "a\u{fffd}b/c");
    assert_eq!(p.components(), vec![vec![b'a', 0xff, b'b'], vec![b'c']]);
}

#[test]
fn the_key_of_an_absolute_path_keeps_its_root() {
    assert_eq!(PathKey::from(&path("/a/b")).as_str(), "//a/b");
    assert_eq!(PathKey::from(&path("")).as_str(), "");
}

#[test]
fn a_key_spells_the_path_that_it_was_made_of() {
    for t in ["", "a", "sub/file.txt", "gr\u{fc}n/\u{2713}"] {
        let key = PathKey::from(&path(t));
        assert_eq!(key.as_str(), t);
        assert_eq!(text(&key.to_path()), t);
    }
    let key = PathKey::from_text("x//y".to_string());
    assert_eq!(text(&key.to_path()), "x//y");
    assert_eq!(key.into_text(), "x//y");
}

#[test]
fn different_paths_have_different_keys() {
    assert_ne!(PathKey::from(&path("a/b")), PathKey::from(&path("a/c")));
    assert_ne!(PathKey::from(&path("a/b")), PathKey::from(&path("a")));
}

#[test]
fn entries_outside_of_the_root_have_no_key() {
    let e = PathKey::from_pathentry(&path("/other"), &dir("/r/a")).unwrap_err();
    assert!(matches!(e, Error::StripPrefix));
}

#[test]
fn a_walk_makes_entries_of_what_it_finds() {
    assert!(matches!(visit(Found::Dir(path("/r"))), Some(PathEntry::Dir { .. })));
    match visit(Found::File(path("/r/f"), b"content1")) {
        Some(PathEntry::File { path, chunks }) => {
            assert_eq!(text(&path), "/r/f");
            assert_eq!(chunks.len(), 1);
            assert_eq!(chunks[0].hash, *blake3::hash(b"content1").as_bytes());
        }
        _ => panic!("Expected a file"),
    }
    match visit(Found::File(path("/r/empty"), b"")) {
        Some(PathEntry::File { chunks, .. }) => assert!(chunks.is_empty()),
        _ => panic!("Expected a file"),
    }
    assert!(visit(Found::Inaccessible).is_none());
    assert_eq!(after_visit(Some(true)), WalkState::Continue);
    assert_eq!(after_visit(Some(false)), WalkState::Quit);
    assert_eq!(after_visit(None), WalkState::Continue);
}

#[test]
fn a_snapshot_is_collected_from_entries() {
    let root = path("/r");
    let entries = vec![dir("/r"), dir("/r/d"), file("/r/d/f", "x"), file("/r/g", "y")];
    let snapshot = Snapshot::collect(&root, entries).unwrap();
    assert_eq!(snapshot.len(), 4);
    let keys: Vec<String> = (0..4).map(|i| snapshot.item(i).0.as_str().to_string()).collect();
    assert_eq!(keys, vec!["", "d", "d/f", "g"]);
    assert!(matches!(
        snapshot.get(&PathKey::from_text("d".to_string())),
        Some(PathEntry::Dir { .. })
    ));
    assert!(matches!(
        snapshot.get(&PathKey::from_text("d/f".to_string())),
        Some(PathEntry::File { .. })
    ));
    assert!(snapshot.get(&PathKey::from_text("d/".to_string())).is_none());
}

#[test]
fn a_snapshot_of_entries_from_elsewhere_fails() {
    let root = path("/r");
    let e = Snapshot::collect(&root, vec![dir("/r"), dir("/s")]).err().unwrap();
    assert!(matches!(e, Error::StripPrefix));
}

#[test]
fn the_last_entry_under_a_key_counts() {
    let key = || PathKey::from_text("k".to_string());
    let pairs = vec![
        (key(), dir("/r/k")),
        (PathKey::from_text("l".to_string()), dir("/r/l")),
        (key(), file("/r/k", "data")),
    ];
    let snapshot = Snapshot::from_pairs(pairs);
    assert_eq!(snapshot.len(), 2);
    assert!(matches!(snapshot.get(&key()), Some(PathEntry::File { .. })));
    let pairs = snapshot.into_pairs();
    assert_eq!(pairs[0].0.as_str(), "k");
    assert_eq!(pairs[1].0.as_str(), "l");

    let snapshot = Snapshot::new().insert(key(), dir("/r/k")).insert(key(), file("/r/k", ""));
    assert_eq!(snapshot.len(), 1);
    assert!(matches!(snapshot.get(&key()), Some(PathEntry::File { .. })));
    assert_eq!(Snapshot::new().len(), 0);
}

#[test]
fn numbers_are_written_in_decimal() {
    assert_eq!(decimal_text(0), "0");
    assert_eq!(decimal_text(7), "7");
    assert_eq!(decimal_text(1020), "1020");
    assert_eq!(decimal_text(usize::MAX), usize::MAX.to_string());
}

#[test]
fn the_messages_of_errors() {
    assert_eq!(Error::StripPrefix.message(), "Path prefix error: prefix not found");
    assert_eq!(
        Error::RootDoesNotExist(path("/no/such")).message(),
        "Root directory does not exist: /no/such"
    );
    assert_eq!(
        Error::RootDoesNotExist(path("/no//such/")).message(),
        "Root directory does not exist: /no//such/"
    );
    assert_eq!(
        Error::CopyInstructionOutOfBounds { file_len: 5, start: 0, end: 1000 }.message(),
        "Copy instruction bounds error: file len 5, requested range 0..1000"
    );
    assert_eq!(
        Error::StreamClosedWrite.message(),
        "Stream closed before all bytes were written"
    );
    assert_eq!(
        Error::StreamClosedRead.message(),
        "Stream closed before all bytes were received"
    );
    assert_eq!(Error::Receiver("no".to_string()).message(), "Receiver error: no");
    assert_eq!(Error::NoParentDir(path("/")).message(), "Path parent not found for /");
}
