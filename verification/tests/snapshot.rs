use patchsync::chunker::{chunk, FileChunk};
use patchsync::diff::{instructs, is_unchanged, DiffSession};
use patchsync::dirwalker::{visit, Found, PathEntry};
use patchsync::error::Error;
use patchsync::listing::Snapshot;
use patchsync::path::FilePath;
use patchsync::receiver::{RecvAction, RecvInput, RecvSession};
use patchsync::sender::{SendAction, SendFailure, SendInput, SendSession};
use patchsync::snapshot::{
    diff, is_removed, patch, quoted, rebuild, removal, total_size, ApplyPlan, PatchInstructs, PathKey,
    Removal, RemovalOutcome, SnapshotEntry,
};
use patchsync::sync::{ReceiverToSender, RecvEvent, SendEvent, SenderToReceiver};
use std::collections::{BTreeMap, VecDeque};

fn path(text: &str) -> FilePath {
    FilePath::from_bytes(text.as_bytes())
}

/// Where a path leads, spelled plainly.
fn place(path: &FilePath) -> String {
    let parts: Vec<String> = path
        .components()
        .into_iter()
        .map(|p| String::from_utf8(p).unwrap())
        .collect();
    if path.is_absolute() {
        format!("/{}", parts[1..].join("/"))
    } else {
        parts.join("/")
    }
}

fn is_plain(path: &FilePath) -> bool {
    let text = path.display();
    !text.ends_with('/') && !text.ends_with("/.")
}

#[derive(Clone, Debug, PartialEq)]
enum Node {
    Dir,
    File(Vec<u8>),
}

/// A file system in memory, by the text of absolute paths.
#[derive(Clone, Debug, PartialEq)]
struct Disk {
    nodes: BTreeMap<String, Node>,
}

impl Disk {
    fn new(root: &str) -> Disk {
        let mut disk = Disk { nodes: BTreeMap::new() };
        disk.make_dirs(&path(root)).unwrap();
        disk
    }

    fn make_dirs(&mut self, dir: &FilePath) -> Result<(), String> {
        if let Some(above) = dir.parent() {
            self.make_dirs(&above)?;
        }
        match self.nodes.get(&place(dir)) {
            Some(Node::File(_)) => Err("not a directory".to_string()),
            Some(Node::Dir) => Ok(()),
            None => {
                self.nodes.insert(place(dir), Node::Dir);
                Ok(())
            }
        }
    }

    fn write(&mut self, file: &str, data: &str) {
        let p = path(file);
        self.make_dirs(&p.parent().unwrap()).unwrap();
        self.nodes.insert(place(&p), Node::File(data.as_bytes().to_vec()));
    }

    fn has(&self, p: &str) -> bool {
        self.nodes.contains_key(p)
    }

    fn is_dir(&self, p: &str) -> bool {
        self.nodes.get(p) == Some(&Node::Dir)
    }

    fn read(&self, p: &str) -> Option<String> {
        match self.nodes.get(p) {
            Some(Node::File(data)) => Some(String::from_utf8(data.clone()).unwrap()),
            _ => None,
        }
    }

    fn bytes(&self, p: &FilePath) -> Option<Vec<u8>> {
        match self.nodes.get(&place(p)) {
            Some(Node::File(data)) => Some(data.clone()),
            _ => None,
        }
    }

    fn remove_tree(&mut self, p: &str) {
        let below = format!("{p}/");
        self.nodes.retain(|k, _| k != p && !k.starts_with(&below));
    }

    /// A walk that leaves out what is hidden.
    fn walk(&self, root: &str) -> Vec<PathEntry> {
        let below = format!("{root}/");
        let mut entries: Vec<PathEntry> = vec![];
        for (k, node) in &self.nodes {
            if k != root && (!k.starts_with(&below) || k.contains("/.")) {
                continue;
            }
            let found = match node {
                Node::Dir => Found::Dir(path(k)),
                Node::File(data) => Found::File(path(k), data),
            };
            entries.push(visit(found).unwrap());
        }
        entries
    }

    fn snapshot(&self, root: &str) -> Snapshot {
        Snapshot::collect(&path(root), self.walk(root)).unwrap()
    }

    /// What the entries of the snapshot hold, in its order.
    fn contents(&self, snapshot: &Snapshot) -> Vec<Vec<u8>> {
        (0..snapshot.len())
            .map(|i| self.bytes(&snapshot.item(i).1.into_path()).unwrap_or_default())
            .collect()
    }

    fn apply(&mut self, change: SnapshotEntry, root: &str) -> Result<(), String> {
        let plan = change
            .apply(&path(root), self.has(root))
            .map_err(|e| e.message())?;
        match plan {
            ApplyPlan::Nothing => Ok(()),
            ApplyPlan::CreateFile { dir, path, bytes } => {
                if let Some(dir) = dir {
                    self.make_dirs(&dir)?;
                }
                if self.is_dir(&place(&path)) || !is_plain(&path) {
                    return Err("is a directory".to_string());
                }
                self.nodes.insert(place(&path), Node::File(bytes));
                Ok(())
            }
            ApplyPlan::PatchFile { path, instructs } => {
                let old = self.bytes(&path).filter(|_| is_plain(&path)).ok_or("no such file")?;
                let new = rebuild(path, &instructs, &old).map_err(|e| e.message())?;
                assert!(self.is_dir(&place(&new.dir)));
                self.nodes.insert(place(&new.path), Node::File(new.bytes));
                Ok(())
            }
            ApplyPlan::Remove { path } => {
                let how = removal(self.is_dir(&place(&path)));
                let outcome = match how {
                    Removal::Tree if path.display().ends_with('.') => RemovalOutcome::Failed,
                    Removal::Tree => {
                        self.remove_tree(&place(&path));
                        RemovalOutcome::Removed
                    }
                    Removal::File => {
                        let mut above = path.parent();
                        let mut blocked = false;
                        while let Some(dir) = above {
                            blocked = blocked || self.bytes(&dir).is_some();
                            above = dir.parent();
                        }
                        let misspelled = self.bytes(&path).is_some() && !is_plain(&path);
                        if blocked || misspelled {
                            RemovalOutcome::Failed
                        } else if self.nodes.remove(&place(&path)).is_some() {
                            RemovalOutcome::Removed
                        } else {
                            RemovalOutcome::Missing
                        }
                    }
                };
                if is_removed(how, outcome) {
                    Ok(())
                } else {
                    Err("not removed".to_string())
                }
            }
        }
    }
}

/// The changes from the tree of one disk to that of another.
fn changes(old: &Disk, old_root: &str, new: &Disk, new_root: &str) -> Vec<SnapshotEntry> {
    let tree = new.snapshot(new_root);
    let contents = new.contents(&tree);
    diff(old.snapshot(old_root), tree, contents)
}

fn create(p: &str, data: &str) -> SnapshotEntry {
    SnapshotEntry::Create { path: path(p), bytes: data.as_bytes().to_vec() }
}

fn delete(p: &str) -> SnapshotEntry {
    SnapshotEntry::Delete { path: path(p) }
}

fn copy(offset: u64, length: u64) -> PatchInstructs {
    PatchInstructs::Copy { offset, length }
}

fn literal(data: &str) -> PatchInstructs {
    PatchInstructs::Literal { data: data.as_bytes().to_vec() }
}

#[test]
fn test_patch_instructs_get_length() {
    let copy_inst = PatchInstructs::Copy { offset: 0, length: 100 };
    assert_eq!(copy_inst.get_length(), 0);

    let lit_inst = PatchInstructs::Literal { data: vec![1, 2, 3, 4, 5] };
    assert_eq!(lit_inst.get_length(), 5);
}

#[test]
fn test_snapshot_entry_path_and_debug() {
    let create = SnapshotEntry::Create { path: path("a.txt"), bytes: vec![1, 2] };
    assert_eq!(create.path().display(), "a.txt");
    assert!(debug(&create).contains("Create"));

    let update = SnapshotEntry::Update { path: path("b.txt"), instructs: vec![] };
    assert_eq!(update.path().display(), "b.txt");
    assert!(debug(&update).contains("Update"));

    let delete = SnapshotEntry::Delete { path: path("c.txt") };
    assert_eq!(delete.path().display(), "c.txt");
    assert!(debug(&delete).contains("Delete"));
}

fn debug(change: &SnapshotEntry) -> String {
    let path = String::from_utf8(change.path().as_bytes().to_vec()).unwrap();
    change.debug_text(&quoted(&path))
}

#[test]
fn debug_output_gives_lengths_and_quotes_paths() {
    assert_eq!(debug(&create("a\"b", "xy")), "Create { path: \"a\\\"b\", b_len: 2 }");
    assert_eq!(debug(&delete("d//e/")), "Delete { path: \"d//e/\" }");
    let update = SnapshotEntry::Update { path: path("f"), instructs: vec![copy(0, 1)] };
    assert_eq!(debug(&update), "Update { path: \"f\", instructs_len: 1 }");
    assert_eq!(update.debug_text("<f>"), "Update { path: <f>, instructs_len: 1 }");
}

#[test]
fn debug_output_quotes_as_paths_do() {
    for t in ["it's", "tab\there", "gr\u{fc}n", "e\u{301}"] {
        let quoted = format!("{:?}", std::path::PathBuf::from(t));
        assert_eq!(debug(&delete(t)), format!("Delete {{ path: {quoted} }}"));
    }
    let change = SnapshotEntry::Delete { path: FilePath::from_bytes(&[b'a', 0xff]) };
    assert_eq!(change.debug_text("\"a\\xFF\""), "Delete { path: \"a\\xFF\" }");
}

#[test]
fn test_apply_non_existent_root_bails() {
    let entry = SnapshotEntry::Delete { path: path("foo") };
    let e = entry.apply(&path("/non/existent/path/for/sure"), false).err().unwrap();
    assert!(matches!(e, Error::RootDoesNotExist(_)));
    assert_eq!(e.message(), "Root directory does not exist: /non/existent/path/for/sure");
}

#[test]
fn test_apply_create_nested_dir() {
    let mut disk = Disk::new("/dir");
    disk.apply(create("nested/deep/file.txt", "deep data"), "/dir").unwrap();
    assert_eq!(disk.read("/dir/nested/deep/file.txt").unwrap(), "deep data");
    assert!(disk.is_dir("/dir/nested/deep"));
}

#[test]
fn test_apply_update_copy_and_literal() {
    let mut disk = Disk::new("/dir");
    disk.write("/dir/file.txt", "ABCDEFGHIJKLMNOPQRSTUVWXYZ");

    // Construct update: Copy 0..5 ("ABCDE"), Literal "123", Copy 20..26 ("UVWXYZ")
    let update = SnapshotEntry::Update {
        path: path("file.txt"),
        instructs: vec![copy(0, 5), literal("123"), copy(20, 6)],
    };
    disk.apply(update, "/dir").unwrap();
    assert_eq!(disk.read("/dir/file.txt").unwrap(), "ABCDE123UVWXYZ");
}

#[test]
fn test_apply_update_out_of_bounds_error() {
    let mut disk = Disk::new("/dir");
    disk.write("/dir/file.txt", "short");

    let update = SnapshotEntry::Update { path: path("file.txt"), instructs: vec![copy(0, 1000)] };
    let e = disk.apply(update, "/dir").unwrap_err();
    assert_eq!(e, "Copy instruction bounds error: file len 5, requested range 0..1000");
    assert_eq!(disk.read("/dir/file.txt").unwrap(), "short");
}

#[test]
fn test_apply_delete_edge_cases() {
    let mut disk = Disk::new("/dir");
    let before = disk.clone();

    // Empty path delete
    let empty_del = SnapshotEntry::Delete { path: path("") };
    disk.apply(empty_del, "/dir").unwrap();

    // Non-existent file delete should not error
    let non_exist_del = SnapshotEntry::Delete { path: path("ghost.txt") };
    disk.apply(non_exist_del, "/dir").unwrap();
    assert_eq!(disk, before);
}

#[test]
fn test_delete_directory_entry() {
    let mut disk = Disk::new("/dir");
    disk.write("/dir/subdir/test.txt", "hello");

    let entries = diff(disk.snapshot("/dir"), Snapshot::new(), vec![]);
    for entry in entries {
        disk.apply(entry, "/dir").unwrap();
    }

    assert!(!disk.has("/dir/subdir"));
    assert!(disk.has("/dir"));
}

#[test]
fn test_dir_changed_to_file() {
    let mut disk = Disk::new("/dir");
    disk.make_dirs(&path("/dir/item")).unwrap();
    let mut new = Disk::new("/dir");
    new.write("/dir/item", "content");

    for entry in changes(&disk, "/dir", &new, "/dir") {
        disk.apply(entry, "/dir").unwrap();
    }

    assert!(!disk.is_dir("/dir/item"));
    assert_eq!(disk.read("/dir/item").unwrap(), "content");
}

#[test]
fn test_file_changed_to_dir() {
    let mut disk = Disk::new("/dir");
    disk.write("/dir/item", "file content");
    let mut new = Disk::new("/dir");
    new.make_dirs(&path("/dir/item")).unwrap();

    let diff_entries = changes(&disk, "/dir", &new, "/dir");

    // Must contain a Delete for item
    let has_delete = diff_entries.iter().any(|e| match e {
        SnapshotEntry::Delete { path } => path.display() == "item",
        _ => false,
    });
    assert!(has_delete);
}

#[test]
fn test_diff_multiple_files_with_unchanged() {
    let mut disk = Disk::new("/dir");
    disk.write("/dir/a.txt", "initial content a");
    disk.write("/dir/b.txt", "initial content b");
    let mut new = disk.clone();

    // Modify file_b, keep file_a unchanged
    new.write("/dir/b.txt", "modified content b");

    let diff_entries = changes(&disk, "/dir", &new, "/dir");

    // Must contain an Update for b.txt and no entries for a.txt
    assert_eq!(diff_entries.len(), 1);
    assert_eq!(diff_entries[0].path().display(), "b.txt");
    assert!(matches!(diff_entries[0], SnapshotEntry::Update { .. }));
}

#[test]
fn a_patch_is_checked_instruction_by_instruction() {
    let old = b"0123456789";
    assert_eq!(patch(old, &vec![]).unwrap(), b"");
    assert_eq!(patch(old, &vec![copy(10, 0)]).unwrap(), b"");
    assert_eq!(patch(old, &vec![copy(8, 2), literal("x"), copy(0, 1)]).unwrap(), b"89x0");
    let e = patch(old, &vec![literal("fine"), copy(8, 3), copy(100, 1)]).err().unwrap();
    assert!(matches!(
        e,
        Error::CopyInstructionOutOfBounds { file_len: 10, start: 8, end: 11 }
    ));
    let e = patch(old, &vec![copy(u64::MAX, 2)]).err().unwrap();
    assert!(matches!(e, Error::CopyInstructionOutOfBounds { file_len: 10, end: usize::MAX, .. }));
}

#[test]
fn a_file_without_a_directory_cannot_be_replaced() {
    let e = rebuild(path("/"), &vec![], b"").err().unwrap();
    assert!(matches!(e, Error::NoParentDir(_)));
    let new = rebuild(path("/a/b"), &vec![literal("z")], b"").unwrap();
    assert_eq!(new.dir.display(), "/a");
    assert_eq!(new.path.display(), "/a/b");
    assert_eq!(new.bytes, b"z");
}

#[test]
fn how_things_are_removed() {
    assert_eq!(removal(true), Removal::Tree);
    assert_eq!(removal(false), Removal::File);
    assert!(is_removed(Removal::Tree, RemovalOutcome::Removed));
    assert!(is_removed(Removal::File, RemovalOutcome::Missing));
    assert!(!is_removed(Removal::Tree, RemovalOutcome::Missing));
    assert!(!is_removed(Removal::File, RemovalOutcome::Failed));
}

#[test]
fn a_change_to_an_absolute_path_leaves_the_root() {
    let plan = create("/elsewhere/x", "").apply(&path("/dir"), true).unwrap();
    match plan {
        ApplyPlan::CreateFile { dir, path, .. } => {
            assert_eq!(dir.unwrap().display(), "/elsewhere");
            assert_eq!(path.display(), "/elsewhere/x");
        }
        _ => panic!("Expected a file to be created"),
    }
}

#[test]
fn a_plan_keeps_the_spelling_of_paths() {
    let plan = create("a/", "x").apply(&path("/dir/"), true).unwrap();
    match plan {
        ApplyPlan::CreateFile { dir, path, .. } => {
            assert_eq!(dir.unwrap().display(), "/dir");
            assert_eq!(path.display(), "/dir/a/");
        }
        _ => panic!("Expected a file to be created"),
    }
    match delete(".").apply(&path("/dir"), true).unwrap() {
        ApplyPlan::Remove { path } => assert_eq!(path.display(), "/dir/."),
        _ => panic!("Expected a removal"),
    }
    let mut disk = Disk::new("/dir");
    assert!(disk.apply(create("a/", "x"), "/dir").is_err());
    assert!(disk.apply(delete("."), "/dir").is_err());
    disk.write("/dir/b", "b");
    assert!(disk.apply(delete("b/"), "/dir").is_err());
    assert!(disk.apply(delete("missing/"), "/dir").is_ok());
    disk.make_dirs(&path("/dir/c")).unwrap();
    assert!(disk.apply(delete("c/"), "/dir").is_ok());
    assert!(!disk.has("/dir/c"));
}

#[test]
fn messages_show_paths_as_they_were_sent() {
    let (mut s, _) = RecvSession::open(path("/r/"));
    s.step(RecvInput::Message(Ok(SenderToReceiver::SendPatch(vec![delete("a//b")]))));
    let got = s.step(RecvInput::Applied(Err("no".to_string())));
    match &got[1] {
        RecvAction::Send(ReceiverToSender::Error(text)) => {
            assert_eq!(text, "Failed to apply patch entry for a//b: no")
        }
        _ => panic!("Expected an error"),
    }
}

#[test]
fn sizes_count_file_contents_alone() {
    let update = SnapshotEntry::Update {
        path: path("u"),
        instructs: vec![copy(0, 100), literal("12345"), literal("67")],
    };
    assert_eq!(update.size(), 7);
    assert_eq!(create("c", "abc").size(), 3);
    assert_eq!(delete("d").size(), 0);
    assert_eq!(total_size(&vec![update, create("c", "abc"), delete("d")]), 10);
    assert_eq!(total_size(&vec![]), 0);
}

fn piece(n: u8, offset: u64, length: u64) -> FileChunk {
    FileChunk { hash: [n; 32], offset, length }
}

#[test]
fn known_chunks_are_copied_and_others_are_carried() {
    let old = vec![piece(1, 0, 4), piece(2, 4, 4), piece(1, 8, 4)];
    let new = vec![piece(2, 0, 4), piece(3, 4, 3), piece(1, 7, 4)];
    let got = instructs(&old, &new, b"bbbbcccaaaa");
    assert_eq!(got.len(), 3);
    assert!(matches!(got[0], PatchInstructs::Copy { offset: 4, length: 4 }));
    match &got[1] {
        PatchInstructs::Literal { data } => assert_eq!(data, b"ccc"),
        _ => panic!("Expected a literal"),
    }
    // Of two chunks with one hash the last is taken.
    assert!(matches!(got[2], PatchInstructs::Copy { offset: 8, length: 4 }));
}

#[test]
fn carried_bytes_are_clipped_to_the_file() {
    let new = vec![piece(3, 4, 10), piece(4, 100, 5), piece(5, u64::MAX, u64::MAX)];
    let got = instructs(&vec![], &new, b"0123456789");
    let data: Vec<&[u8]> = got
        .iter()
        .map(|i| match i {
            PatchInstructs::Literal { data } => data.as_slice(),
            _ => panic!("Expected a literal"),
        })
        .collect();
    assert_eq!(data, vec![b"456789".as_slice(), b"".as_slice(), b"".as_slice()]);
}

#[test]
fn files_are_unchanged_if_their_hashes_are() {
    let a = vec![piece(1, 0, 4), piece(2, 4, 4)];
    assert!(is_unchanged(&a, &vec![piece(1, 0, 4), piece(2, 4, 4)]));
    assert!(!is_unchanged(&a, &vec![piece(2, 0, 4), piece(1, 4, 4)]));
    assert!(!is_unchanged(&a, &vec![piece(1, 0, 4)]));
    assert!(is_unchanged(&vec![], &vec![]));
}

#[test]
fn a_patch_rebuilds_the_new_file() {
    let mut state: u64 = 88172645463325252;
    let mut old: Vec<u8> = vec![];
    while old.len() < 500_000 {
        state ^= state << 13;
        state ^= state >> 7;
        state ^= state << 17;
        old.push(state as u8);
    }
    let mut new = old[..200_000].to_vec();
    new.extend_from_slice(b"inserted in the middle");
    new.extend_from_slice(&old[220_000..]);
    let got = instructs(&chunk(&old), &chunk(&new), &new);
    assert_eq!(patch(&old, &got).unwrap(), new);
    let carried: u64 = got.iter().map(|i| i.get_length()).sum();
    assert!(carried < new.len() as u64);
}

#[test]
fn files_are_read_in_the_order_of_the_tree() {
    let mut new = Disk::new("/s");
    new.write("/s/d/one", "1");
    new.write("/s/two", "2");
    let mut session = DiffSession::new(Snapshot::new(), new.snapshot("/s"));
    assert_eq!(session.wanted().unwrap().display(), "/s/d/one");
    session.supply(b"1".to_vec());
    assert_eq!(session.wanted().unwrap().display(), "/s/two");
    session.supply(b"2".to_vec());
    assert!(session.wanted().is_none());
    let found = session.finish();
    assert_eq!(found.len(), 2);
    assert_eq!(debug(&found[0]), "Create { path: \"d/one\", b_len: 1 }");
    assert_eq!(debug(&found[1]), "Create { path: \"two\", b_len: 1 }");
}

#[test]
fn a_tree_shows_no_changes_to_itself_or_to_a_copy() {
    let mut a = Disk::new("/a");
    a.write("/a/x/y", "same");
    a.write("/a/z", "");
    let mut b = Disk::new("/b");
    b.write("/b/x/y", "same");
    b.write("/b/z", "");
    assert!(changes(&a, "/a", &a, "/a").is_empty());
    assert!(changes(&a, "/a", &b, "/b").is_empty());
    // A new empty directory is no change.
    b.make_dirs(&path("/b/empty")).unwrap();
    assert!(changes(&a, "/a", &b, "/b").is_empty());
    assert_eq!(changes(&b, "/b", &a, "/a").len(), 1);
}

#[test]
fn applying_the_changes_makes_the_old_tree_the_new_one() {
    let mut old = Disk::new("/r");
    old.write("/r/keep/a", "the same");
    old.write("/r/change", "before");
    old.write("/r/gone/deep/b", "gone");
    old.write("/r/becomes_dir", "file");
    old.make_dirs(&path("/r/becomes_file")).unwrap();
    old.write("/r/.patchsync_key", "hidden");
    old.write("/r/gone/.hidden", "hidden in a removed directory");

    let mut new = Disk::new("/s");
    new.write("/s/keep/a", "the same");
    new.write("/s/change", "after");
    new.write("/s/becomes_dir/inner", "file in it");
    new.write("/s/becomes_file", "file now");
    new.write("/s/fresh/c", "fresh");

    for change in changes(&old, "/r", &new, "/s") {
        old.apply(change, "/r").unwrap();
    }

    assert_eq!(old.read("/r/keep/a").unwrap(), "the same");
    assert_eq!(old.read("/r/change").unwrap(), "after");
    assert_eq!(old.read("/r/becomes_dir/inner").unwrap(), "file in it");
    assert_eq!(old.read("/r/becomes_file").unwrap(), "file now");
    assert_eq!(old.read("/r/fresh/c").unwrap(), "fresh");
    assert!(!old.has("/r/gone"));
    assert!(!old.has("/r/gone/.hidden"));
    assert_eq!(old.read("/r/.patchsync_key").unwrap(), "hidden");
    assert!(changes(&old, "/r", &new, "/s").is_empty());
}

#[test]
fn a_full_directory_cannot_give_way_to_a_file() {
    let mut old = Disk::new("/r");
    old.write("/r/item/x", "inner");
    let mut new = Disk::new("/s");
    new.write("/s/item", "file");
    let mut failed = false;
    for change in changes(&old, "/r", &new, "/s") {
        failed = old.apply(change, "/r").is_err() || failed;
    }
    assert!(failed);
}

#[test]
fn the_root_may_be_a_file() {
    let mut old = Disk::new("/r");
    old.write("/r/file", "old");
    let mut new = Disk::new("/s");
    new.write("/s/file", "new contents");
    let found = changes(&old, "/r/file", &new, "/s/file");
    assert_eq!(found.len(), 1);
    for change in found {
        old.apply(change, "/r/file").unwrap();
    }
    assert_eq!(old.read("/r/file").unwrap(), "new contents");
}

/// Both sides of a synchronisation with what they say to each other.
struct Link {
    to_receiver: VecDeque<SenderToReceiver>,
    to_sender: VecDeque<ReceiverToSender>,
    finished: bool,
}

struct Outcome {
    recv_events: Vec<RecvEvent>,
    send_events: Vec<SendEvent>,
    patches: usize,
    result: Result<(), SendFailure<String>>,
}

/// Does what the receiver asks for until it needs a message that has not come.
fn pump_receiver(
    session: &mut RecvSession,
    queue: &mut VecDeque<RecvAction>,
    disk: &mut Disk,
    root: &str,
    link: &mut Link,
    events: &mut Vec<RecvEvent>,
) {
    while let Some(action) = queue.pop_front() {
        let last = queue.is_empty();
        let input = match action {
            RecvAction::Emit(event) => {
                events.push(event);
                None
            }
            RecvAction::Receive => match link.to_receiver.pop_front() {
                Some(message) => Some(RecvInput::Message(Ok(message))),
                None => {
                    queue.push_front(RecvAction::Receive);
                    return;
                }
            },
            RecvAction::Walk => Some(RecvInput::Walked(Ok(disk.walk(root)))),
            RecvAction::Send(message) => {
                link.to_sender.push_back(message);
                Some(RecvInput::Sent(Ok(())))
            }
            RecvAction::Apply(change) => Some(RecvInput::Applied(disk.apply(change, root))),
            RecvAction::Finish => {
                link.finished = true;
                None
            }
            RecvAction::Drain => None,
            RecvAction::Stop => {
                assert!(last);
                return;
            }
        };
        if last {
            queue.extend(session.step(input.unwrap()));
        }
    }
}

fn synchronise(recv: &mut Disk, recv_root: &str, send: &Disk, send_root: &str) -> Outcome {
    let mut link = Link {
        to_receiver: VecDeque::new(),
        to_sender: VecDeque::new(),
        finished: false,
    };
    let mut outcome = Outcome {
        recv_events: vec![],
        send_events: vec![],
        patches: 0,
        result: Ok(()),
    };
    let (mut receiver, actions) = RecvSession::open(path(recv_root));
    let mut recv_queue: VecDeque<RecvAction> = actions.into();
    let (mut sender, actions) = SendSession::open::<String>(path(send_root));
    let mut send_queue: VecDeque<SendAction<String>> = actions.into();
    loop {
        let action = send_queue.pop_front().unwrap();
        let input: Option<SendInput<String>> = match action {
            SendAction::Emit(event) => {
                outcome.send_events.push(event);
                None
            }
            SendAction::Send(message) => {
                if matches!(message, SenderToReceiver::SendPatch(_)) {
                    outcome.patches += 1;
                }
                link.to_receiver.push_back(message);
                Some(SendInput::Sent(Ok(())))
            }
            SendAction::Receive => {
                let events = &mut outcome.recv_events;
                pump_receiver(&mut receiver, &mut recv_queue, recv, recv_root, &mut link, events);
                let message = link.to_sender.pop_front().ok_or("closed".to_string());
                Some(SendInput::Message(message))
            }
            SendAction::Walk => Some(SendInput::Walked(Ok(send.walk(send_root)))),
            SendAction::Read(p) => {
                Some(SendInput::Contents(send.bytes(&p).ok_or("no such file".to_string())))
            }
            SendAction::Finish => Some(SendInput::Finished(Ok(()))),
            SendAction::Return(result) => {
                assert!(send_queue.is_empty());
                outcome.result = result;
                let events = &mut outcome.recv_events;
                pump_receiver(&mut receiver, &mut recv_queue, recv, recv_root, &mut link, events);
                return outcome;
            }
        };
        if send_queue.is_empty() {
            let (next, actions) = sender.step(input.unwrap());
            sender = next;
            send_queue.extend(actions);
        }
    }
}

fn recv_log(events: &[RecvEvent]) -> Vec<String> {
    events
        .iter()
        .map(|e| match e {
            RecvEvent::Started => "started".to_string(),
            RecvEvent::SnapshotSent { entry_count } => format!("snapshot {entry_count}"),
            RecvEvent::EntryReceiving { path } => format!("receiving {}", path.display()),
            RecvEvent::Progress { bytes } => format!("progress {bytes}"),
            RecvEvent::EntryApplied { path } => format!("applied {}", path.display()),
            RecvEvent::Finished => "finished".to_string(),
            RecvEvent::Error(text) => format!("error {text}"),
        })
        .collect()
}

#[test]
fn test_end_to_end_sync_protocol() {
    // Receiver state: a.txt ("old a"), b.txt ("will delete")
    let mut recv = Disk::new("/recv");
    recv.write("/recv/a.txt", "old a content");
    recv.write("/recv/b.txt", "to be deleted");

    // Sender state: a.txt ("new a content!"), c.txt ("newly created c")
    let mut send = Disk::new("/send");
    send.write("/send/a.txt", "new a content!");
    send.write("/send/c.txt", "newly created c");

    let outcome = synchronise(&mut recv, "/recv", &send, "/send");
    assert!(outcome.result.is_ok());
    assert_eq!(outcome.patches, 1);

    // Verify receiver files match sender state
    assert_eq!(recv.read("/recv/a.txt").unwrap(), "new a content!");
    assert_eq!(recv.read("/recv/c.txt").unwrap(), "newly created c");
    assert!(!recv.has("/recv/b.txt"));

    // Verify events emitted
    assert!(outcome.recv_events.iter().any(|e| matches!(e, RecvEvent::Finished)));
    assert!(outcome.send_events.iter().any(|e| matches!(e, SendEvent::Finished)));
    assert_eq!(
        recv_log(&outcome.recv_events),
        vec![
            "started",
            "snapshot 3",
            "receiving a.txt",
            "applied a.txt",
            "receiving c.txt",
            "applied c.txt",
            "receiving b.txt",
            "applied b.txt",
            "finished",
        ]
    );
    assert!(matches!(outcome.send_events[0], SendEvent::Started));
    assert!(matches!(
        outcome.send_events[1],
        SendEvent::SnapshotReceived { entry_count: 3 }
    ));
    assert!(matches!(
        outcome.send_events[2],
        SendEvent::DiffComputed { total_entries: 3, total_bytes: 29 }
    ));
    assert_eq!(outcome.send_events.len(), 4);
}

#[test]
fn test_sync_no_changes() {
    let mut recv = Disk::new("/recv");
    recv.write("/recv/same.txt", "identical content");
    let mut send = Disk::new("/send");
    send.write("/send/same.txt", "identical content");

    let outcome = synchronise(&mut recv, "/recv", &send, "/send");
    assert!(outcome.result.is_ok());
    assert_eq!(outcome.patches, 0);

    let diff_event = outcome
        .send_events
        .iter()
        .find(|e| matches!(e, SendEvent::DiffComputed { .. }));
    if let Some(SendEvent::DiffComputed { total_entries, .. }) = diff_event {
        assert_eq!(*total_entries, 0);
    } else {
        panic!("Expected DiffComputed event");
    }
    assert_eq!(recv_log(&outcome.recv_events), vec!["started", "snapshot 2", "finished"]);
}

#[test]
fn a_change_that_fails_is_refused() {
    let mut recv = Disk::new("/recv");
    recv.write("/recv/item/x", "inner");
    let mut send = Disk::new("/send");
    send.write("/send/item", "file");

    let outcome = synchronise(&mut recv, "/recv", &send, "/send");
    let reason = "Failed to apply patch entry for item/x: not removed";
    match outcome.result {
        Err(SendFailure::Sync(Error::Receiver(text))) => assert_eq!(text, reason),
        _ => panic!("Expected the receiver's error"),
    }
    assert!(matches!(
        outcome.send_events.last(),
        Some(SendEvent::Error(text)) if text == reason
    ));
    assert_eq!(
        recv_log(&outcome.recv_events),
        vec![
            "started".to_string(),
            "snapshot 3".to_string(),
            "receiving item".to_string(),
            "applied item".to_string(),
            "receiving item".to_string(),
            "applied item".to_string(),
            "receiving item/x".to_string(),
            format!("error {reason}"),
        ]
    );
}

#[test]
fn a_receiver_without_a_root_refuses_the_patch() {
    let mut recv = Disk { nodes: BTreeMap::new() };
    let mut send = Disk::new("/send");
    send.write("/send/a", "a");
    let outcome = synchronise(&mut recv, "/recv", &send, "/send");
    match outcome.result {
        Err(SendFailure::Sync(Error::Receiver(text))) => assert_eq!(
            text,
            "Failed to apply patch entry for a: Root directory does not exist: /recv"
        ),
        _ => panic!("Expected the receiver's error"),
    }
}

fn names(actions: &[RecvAction]) -> Vec<&'static str> {
    actions
        .iter()
        .map(|a| match a {
            RecvAction::Emit(RecvEvent::Error(_)) => "error",
            RecvAction::Emit(_) => "emit",
            RecvAction::Receive => "receive",
            RecvAction::Walk => "walk",
            RecvAction::Send(ReceiverToSender::Ack) => "send ack",
            RecvAction::Send(ReceiverToSender::Error(_)) => "send error",
            RecvAction::Send(ReceiverToSender::Snapshot(_)) => "send snapshot",
            RecvAction::Apply(_) => "apply",
            RecvAction::Finish => "finish",
            RecvAction::Drain => "drain",
            RecvAction::Stop => "stop",
        })
        .collect()
}

#[test]
fn a_file_is_synchronised_with_a_file() {
    let mut recv = Disk::new("/recv");
    recv.write("/recv/file", "old");
    let mut send = Disk::new("/send");
    send.write("/send/other", "new contents");
    let outcome = synchronise(&mut recv, "/recv/file", &send, "/send/other");
    assert!(outcome.result.is_ok());
    assert_eq!(outcome.patches, 1);
    assert_eq!(recv.read("/recv/file").unwrap(), "new contents");
    let outcome = synchronise(&mut recv, "/recv/file", &send, "/send/other");
    assert!(outcome.result.is_ok());
    assert_eq!(outcome.patches, 0);
}

#[test]
fn both_sides_report_one_end() {
    let mut send = Disk::new("/send");
    send.write("/send/item", "file");
    let mut fresh = Disk::new("/recv");
    let mut same = Disk::new("/recv");
    same.write("/recv/item", "file");
    let mut full = Disk::new("/recv");
    full.write("/recv/item/x", "inner");
    for recv in [&mut fresh, &mut same, &mut full] {
        let outcome = synchronise(recv, "/recv", &send, "/send");
        let ends = outcome
            .recv_events
            .iter()
            .filter(|e| matches!(e, RecvEvent::Finished | RecvEvent::Error(_)))
            .count();
        assert_eq!(ends, 1);
        let finished = outcome.send_events.iter().any(|e| matches!(e, SendEvent::Finished));
        assert_eq!(finished, outcome.result.is_ok());
        let shown = outcome.send_events.iter().find_map(|e| match e {
            SendEvent::Error(text) => Some(text.clone()),
            _ => None,
        });
        let returned = match outcome.result {
            Err(SendFailure::Sync(Error::Receiver(text))) => Some(text),
            _ => None,
        };
        assert_eq!(shown, returned);
    }
}

#[test]
fn the_receiver_answers_step_by_step() {
    let (mut s, actions) = RecvSession::open(path("/r"));
    assert_eq!(names(&actions), vec!["emit", "receive"]);
    let got = s.step(RecvInput::Message(Ok(SenderToReceiver::RequestSnapshot)));
    assert_eq!(names(&got), vec!["walk"]);
    let got = s.step(RecvInput::Walked(Ok(vec![PathEntry::Dir { path: path("/r") }])));
    assert_eq!(names(&got), vec!["send snapshot"]);
    let got = s.step(RecvInput::Sent(Ok(())));
    assert_eq!(names(&got), vec!["emit", "receive"]);
    let patch = SenderToReceiver::SendPatch(vec![delete("a"), create("b", "")]);
    let got = s.step(RecvInput::Message(Ok(patch)));
    assert_eq!(names(&got), vec!["emit", "apply"]);
    // What it does not wait for changes nothing.
    assert!(s.step(RecvInput::Sent(Ok(()))).is_empty());
    let got = s.step(RecvInput::Applied(Ok(())));
    assert_eq!(names(&got), vec!["emit", "emit", "apply"]);
    let got = s.step(RecvInput::Applied(Ok(())));
    assert_eq!(names(&got), vec!["emit", "send ack", "finish", "emit", "drain", "stop"]);
    assert!(s.step(RecvInput::Applied(Ok(()))).is_empty());
}

#[test]
fn a_patch_without_changes_is_acknowledged() {
    let (mut s, _) = RecvSession::open(path("/r"));
    let got = s.step(RecvInput::Message(Ok(SenderToReceiver::SendPatch(vec![]))));
    assert_eq!(names(&got), vec!["send ack", "finish", "emit", "drain", "stop"]);
}

#[test]
fn failures_of_the_receiver() {
    let (mut s, _) = RecvSession::open(path("/r"));
    let got = s.step(RecvInput::Message(Err("gone".to_string())));
    assert_eq!(names(&got), vec!["error", "stop"]);

    let (mut s, _) = RecvSession::open(path("/r"));
    s.step(RecvInput::Message(Ok(SenderToReceiver::RequestSnapshot)));
    let got = s.step(RecvInput::Walked(Err("no".to_string())));
    assert_eq!(names(&got), vec!["error", "send error", "stop"]);
    match &got[1] {
        RecvAction::Send(ReceiverToSender::Error(text)) => {
            assert_eq!(text, "Failed to walk root directory: no")
        }
        _ => panic!("Expected an error"),
    }

    let (mut s, _) = RecvSession::open(path("/r"));
    s.step(RecvInput::Message(Ok(SenderToReceiver::RequestSnapshot)));
    let got = s.step(RecvInput::Walked(Ok(vec![PathEntry::Dir { path: path("/q") }])));
    match &got[0] {
        RecvAction::Emit(RecvEvent::Error(text)) => assert_eq!(
            text,
            "Failed to build snapshot map: Path prefix error: prefix not found"
        ),
        _ => panic!("Expected an error"),
    }

    let (mut s, _) = RecvSession::open(path("/r"));
    s.step(RecvInput::Message(Ok(SenderToReceiver::RequestSnapshot)));
    s.step(RecvInput::Walked(Ok(vec![])));
    let got = s.step(RecvInput::Sent(Err("lost".to_string())));
    assert_eq!(names(&got), vec!["error", "stop"]);
}

#[test]
fn failures_of_the_sender() {
    let (s, _) = SendSession::open::<&str>(path("/s"));
    let (s, got) = s.step(SendInput::Sent(Err("lost")));
    assert!(matches!(got[..], [SendAction::Return(Err(SendFailure::Outside("lost")))]));
    let (_, got) = s.step(SendInput::<&str>::Sent(Ok(())));
    assert!(got.is_empty());

    let (s, _) = SendSession::open::<&str>(path("/s"));
    let (s, _) = s.step(SendInput::<&str>::Sent(Ok(())));
    let snapshot = ReceiverToSender::Snapshot(Snapshot::new());
    let (s, _) = s.step(SendInput::<&str>::Message(Ok(snapshot)));
    let (_, got) = s.step(SendInput::<&str>::Walked(Ok(vec![PathEntry::Dir { path: path("/t") }])));
    assert!(matches!(
        got[..],
        [SendAction::Return(Err(SendFailure::Sync(Error::StripPrefix)))]
    ));

    let mut disk = Disk::new("/s");
    disk.write("/s/f", "f");
    let (s, _) = SendSession::open::<&str>(path("/s"));
    let (s, _) = s.step(SendInput::<&str>::Sent(Ok(())));
    let snapshot = ReceiverToSender::Snapshot(Snapshot::new());
    let (s, _) = s.step(SendInput::<&str>::Message(Ok(snapshot)));
    let (s, got) = s.step(SendInput::<&str>::Walked(Ok(disk.walk("/s"))));
    assert!(matches!(&got[..], [SendAction::Read(p)] if p.display() == "/s/f"));
    let (_, got) = s.step(SendInput::Contents(Err("unreadable")));
    assert!(matches!(got[..], [SendAction::Return(Err(SendFailure::Outside("unreadable")))]));
}

#[test]
fn keys_of_snapshots_come_from_the_root() {
    let mut disk = Disk::new("/dir");
    disk.write("/dir/a/b", "x");
    let snapshot = disk.snapshot("/dir");
    assert!(snapshot.get(&PathKey::from_text("a/b".to_string())).is_some());
    assert!(snapshot.get(&PathKey::from_text("".to_string())).is_some());
    assert_eq!(snapshot.len(), 3);
}
