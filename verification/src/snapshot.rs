//! The changes that turn one tree into another, and how they are applied.

pub use crate::diff::diff;
pub use crate::key::PathKey;
pub use crate::listing::Snapshot;

use crate::error::Error;
use crate::path::{FilePath, PathView};
use crate::text::{concat_text, decimal_text};
use vstd::prelude::*;
use vstd::string::StringExecFns;

verus! {

/// A step in rebuilding a file.
#[derive(Debug)]
pub enum PatchInstructs {
    /// Take bytes of the file as it was.
    Copy { offset: u64, length: u64 },
    /// Take the given bytes.
    Literal { data: Vec<u8> },
}

/// What an instruction says.
pub enum InstructView {
    Copy { offset: u64, length: u64 },
    Literal { data: Seq<u8> },
}

impl View for PatchInstructs {
    type V = InstructView;

    open spec fn view(&self) -> InstructView {
        match self {
            PatchInstructs::Copy { offset, length } => InstructView::Copy {
                offset: *offset,
                length: *length,
            },
            PatchInstructs::Literal { data } => InstructView::Literal { data: data@ },
        }
    }
}

/// How many bytes of file contents an instruction carries.
pub open spec fn carried(instruct: InstructView) -> nat {
    match instruct {
        InstructView::Copy { .. } => 0,
        InstructView::Literal { data } => data.len(),
    }
}

impl PatchInstructs {
    /// How many bytes of file contents the instruction carries.
    pub fn get_length(&self) -> (r: u64)
        ensures
            r == carried(self@),
            match *self {
                PatchInstructs::Copy { .. } => r == 0,
                PatchInstructs::Literal { data } => r == data@.len(),
            },
    {
        match self {
            PatchInstructs::Copy { .. } => 0,
            PatchInstructs::Literal { data } => data.len() as u64,
        }
    }
}

/// What a list of instructions says.
pub open spec fn instruct_views(instructs: Seq<PatchInstructs>) -> Seq<InstructView> {
    Seq::new(instructs.len(), |i: int| instructs[i]@)
}

/// A number as a `usize`, or the largest one where it does not fit.
pub open spec fn as_index(n: int) -> usize {
    if n <= usize::MAX {
        n as usize
    } else {
        usize::MAX
    }
}

/// The error of an instruction that copies from behind the end of a file of `len` bytes.
pub open spec fn out_of_bounds(len: nat, offset: u64, length: u64) -> crate::error::ErrorView {
    crate::error::ErrorView::CopyInstructionOutOfBounds {
        file_len: len as usize,
        start: as_index(offset as int),
        end: as_index(offset + length),
    }
}

/// What the instructions make of the file `old`: each in turn adds the bytes that
/// it copies or carries, and the first that copies from behind the end of the
/// file is the error.
pub open spec fn patched(old: Seq<u8>, instructs: Seq<InstructView>) -> Result<
    Seq<u8>,
    crate::error::ErrorView,
>
    decreases instructs.len(),
{
    if instructs.len() == 0 {
        Ok(Seq::empty())
    } else {
        match patched(old, instructs.drop_last()) {
            Err(e) => Err(e),
            Ok(bytes) => match instructs.last() {
                InstructView::Copy { offset, length } => {
                    if offset + length > old.len() {
                        Err(out_of_bounds(old.len(), offset, length))
                    } else {
                        Ok(bytes + old.subrange(offset as int, offset + length))
                    }
                },
                InstructView::Literal { data } => Ok(bytes + data),
            },
        }
    }
}

/// Converts to a `usize`; the largest one stands for what does not fit.
pub fn to_index(n: u64) -> (r: usize)
    ensures
        r == as_index(n as int),
{
    if n <= usize::MAX as u64 {
        n as usize
    } else {
        usize::MAX
    }
}

/// An error among the first instructions is the error of them all.
proof fn lemma_patched_error(old: Seq<u8>, instructs: Seq<InstructView>, n: int)
    requires
        0 <= n <= instructs.len(),
        patched(old, instructs.take(n)) is Err,
    ensures
        patched(old, instructs) == patched(old, instructs.take(n)),
    decreases instructs.len() - n,
{
    if n == instructs.len() {
        assert(instructs.take(n) =~= instructs);
    } else {
        assert(instructs.take(n + 1).drop_last() =~= instructs.take(n));
        lemma_patched_error(old, instructs, n + 1);
    }
}

/// Rebuilds a file from what it was and the instructions.
pub fn patch(old: &[u8], instructs: &Vec<PatchInstructs>) -> (r: Result<Vec<u8>, Error>)
    ensures
        match r {
            Ok(bytes) => patched(old@, instruct_views(instructs@)) == Ok::<
                Seq<u8>,
                crate::error::ErrorView,
            >(bytes@),
            Err(e) => patched(old@, instruct_views(instructs@)) == Err::<
                Seq<u8>,
                crate::error::ErrorView,
            >(e@),
        },
{
    let mut out: Vec<u8> = Vec::new();
    let ghost all = instruct_views(instructs@);
    let mut i: usize = 0;
    assert(all.take(0) =~= Seq::<InstructView>::empty());
    assert(old.len() == old@.len());
    while i < instructs.len()
        invariant
            i <= instructs.len(),
            all == instruct_views(instructs@),
            old@.len() <= usize::MAX,
            patched(old@, all.take(i as int)) == Ok::<Seq<u8>, crate::error::ErrorView>(out@),
        decreases instructs.len() - i,
    {
        proof {
            assert(all.take(i + 1).drop_last() =~= all.take(i as int));
            assert(all.take(i + 1).last() == instructs@[i as int]@);
        }
        match &instructs[i] {
            PatchInstructs::Copy { offset, length } => {
                let len: u64 = old.len() as u64;
                if *offset > len || *length > len - *offset {
                    let end: u64 = if *length <= u64::MAX - *offset {
                        *offset + *length
                    } else {
                        u64::MAX
                    };
                    proof {
                        lemma_patched_error(old@, all, i + 1);
                    }
                    return Err(
                        Error::CopyInstructionOutOfBounds {
                            file_len: old.len(),
                            start: to_index(*offset),
                            end: to_index(end),
                        },
                    );
                }
                let start = *offset as usize;
                let end = start + *length as usize;
                let part = vstd::slice::slice_subrange(old, start, end);
                let mut copy = crate::path::copy_bytes(part);
                out.append(&mut copy);
            },
            PatchInstructs::Literal { data } => {
                let mut copy = crate::path::copy_bytes(data.as_slice());
                out.append(&mut copy);
            },
        }
        i += 1;
    }
    assert(all.take(all.len() as int) =~= all);
    Ok(out)
}

/// A change to one place of a tree.
pub enum SnapshotEntry {
    /// Write a file with the given contents.
    Create { path: FilePath, bytes: Vec<u8> },
    /// Remove a file, or a directory with all that is in it.
    Delete { path: FilePath },
    /// Rebuild a file.
    Update { path: FilePath, instructs: Vec<PatchInstructs> },
}

/// What a change says.
pub enum ChangeView {
    Create { path: PathView, bytes: Seq<u8> },
    Delete { path: PathView },
    Update { path: PathView, instructs: Seq<InstructView> },
}

impl ChangeView {
    /// The place that the change is about.
    pub open spec fn place(self) -> PathView {
        match self {
            ChangeView::Create { path, .. } => path,
            ChangeView::Delete { path } => path,
            ChangeView::Update { path, .. } => path,
        }
    }
}

impl View for SnapshotEntry {
    type V = ChangeView;

    open spec fn view(&self) -> ChangeView {
        match self {
            SnapshotEntry::Create { path, bytes } => ChangeView::Create {
                path: path@,
                bytes: bytes@,
            },
            SnapshotEntry::Delete { path } => ChangeView::Delete { path: path@ },
            SnapshotEntry::Update { path, instructs } => ChangeView::Update {
                path: path@,
                instructs: instruct_views(instructs@),
            },
        }
    }
}

/// What a list of changes says.
pub open spec fn change_views(changes: Seq<SnapshotEntry>) -> Seq<ChangeView> {
    Seq::new(changes.len(), |i: int| changes[i]@)
}

/// What has to be done to the file system for a change.
pub enum ApplyPlan {
    /// Nothing.
    Nothing,
    /// Make the directory `dir` and those above it, if there is one, then write the file.
    CreateFile { dir: Option<FilePath>, path: FilePath, bytes: Vec<u8> },
    /// Read the file, then go on with [`rebuild`].
    PatchFile { path: FilePath, instructs: Vec<PatchInstructs> },
    /// Find out whether there is a directory, then go on with [`removal`].
    Remove { path: FilePath },
}

/// What a plan says.
pub enum PlanView {
    Nothing,
    CreateFile { dir: Option<PathView>, path: PathView, bytes: Seq<u8> },
    PatchFile { path: PathView, instructs: Seq<InstructView> },
    Remove { path: PathView },
}

impl View for ApplyPlan {
    type V = PlanView;

    open spec fn view(&self) -> PlanView {
        match self {
            ApplyPlan::Nothing => PlanView::Nothing,
            ApplyPlan::CreateFile { dir, path, bytes } => PlanView::CreateFile {
                dir: match dir {
                    Some(d) => Some(d@),
                    None => None,
                },
                path: path@,
                bytes: bytes@,
            },
            ApplyPlan::PatchFile { path, instructs } => PlanView::PatchFile {
                path: path@,
                instructs: instruct_views(instructs@),
            },
            ApplyPlan::Remove { path } => PlanView::Remove { path: path@ },
        }
    }
}

/// The text of the place that a change at `path` is about: with an empty path that is
/// the root itself, which may be a file.
pub open spec fn target_of(root: PathView, path: PathView) -> PathView {
    if path.len() == 0 {
        root
    } else {
        crate::path::pushed(root, path)
    }
}

/// What has to be done below `root` for a change. An empty path removes nothing.
pub open spec fn plan_of(change: ChangeView, root: PathView) -> PlanView {
    let target = target_of(root, change.place());
    match change {
        ChangeView::Create { bytes, .. } => PlanView::CreateFile {
            dir: crate::path::parent_text(target),
            path: target,
            bytes,
        },
        ChangeView::Update { instructs, .. } => PlanView::PatchFile { path: target, instructs },
        ChangeView::Delete { path } => {
            if path.len() == 0 {
                PlanView::Nothing
            } else {
                PlanView::Remove { path: target }
            }
        },
    }
}

/// What the standard library writes for the path with the given text in debug output.
pub uninterp spec fn quoted_path(text: Seq<char>) -> Seq<char>;

/// Formats a path with `{:?}`, that is by `<std::path::Path as Debug>::fmt`. Claimed of
/// it: what it writes depends on the text of the path alone.
#[verifier::external_body]
fn quote_path(text: &str) -> (r: String)
    ensures
        r@ == quoted_path(text@),
{
    format!("{:?}", std::path::Path::new(text))
}

/// The debug output for the path with the given text.
pub fn quoted(text: &str) -> (r: String)
    ensures
        r@ == quoted_path(text@),
{
    quote_path(text)
}

/// The debug output for a change, given that for its path: its contents are given by
/// their length only.
pub open spec fn debug_of(change: ChangeView, path: Seq<char>) -> Seq<char> {
    match change {
        ChangeView::Create { bytes, .. } => "Create { path: "@ + path + ", b_len: "@
            + crate::text::decimal(bytes.len()) + " }"@,
        ChangeView::Delete { .. } => "Delete { path: "@ + path + " }"@,
        ChangeView::Update { instructs, .. } => "Update { path: "@ + path + ", instructs_len: "@
            + crate::text::decimal(instructs.len()) + " }"@,
    }
}

/// The place that a change at `path` is about.
fn target(root: &FilePath, path: &FilePath) -> (r: FilePath)
    ensures
        r@ == target_of(root@, path@),
{
    if path.is_empty() {
        root.clone()
    } else {
        root.join(path)
    }
}

impl SnapshotEntry {
    /// The place that the change is about.
    pub fn path(&self) -> (r: &FilePath)
        ensures
            r@ == self@.place(),
            match *self {
                SnapshotEntry::Create { path, .. } => r@ == path@,
                SnapshotEntry::Delete { path } => r@ == path@,
                SnapshotEntry::Update { path, .. } => r@ == path@,
            },
    {
        match self {
            SnapshotEntry::Create { path, .. } => path,
            SnapshotEntry::Delete { path } => path,
            SnapshotEntry::Update { path, .. } => path,
        }
    }

    /// The debug output for the change, given that for its path, which [`quoted`] gives
    /// where the path is text.
    pub fn debug_text(&self, path: &str) -> (r: String)
        ensures
            r@ == debug_of(self@, path@),
    {
        match self {
            SnapshotEntry::Create { bytes, .. } => {
                let mut r = concat_text("Create { path: ", path);
                r.append(", b_len: ");
                r.append(decimal_text(bytes.len()).as_str());
                r.append(" }");
                r
            },
            SnapshotEntry::Delete { .. } => {
                let mut r = concat_text("Delete { path: ", path);
                r.append(" }");
                r
            },
            SnapshotEntry::Update { instructs, .. } => {
                let mut r = concat_text("Update { path: ", path);
                r.append(", instructs_len: ");
                r.append(decimal_text(instructs.len()).as_str());
                r.append(" }");
                r
            },
        }
    }

    /// What has to be done below `root` for the change. Without a root nothing can be.
    pub fn apply(self, root: &FilePath, root_exists: bool) -> (r: Result<ApplyPlan, Error>)
        ensures
            match r {
                Ok(plan) => root_exists && plan@ == plan_of(self@, root@),
                Err(e) => !root_exists && e@ == crate::error::ErrorView::RootDoesNotExist(root@),
            },
    {
        if !root_exists {
            return Err(Error::RootDoesNotExist(root.clone()));
        }
        let plan = match self {
            SnapshotEntry::Create { path, bytes } => {
                let target = target(root, &path);
                ApplyPlan::CreateFile { dir: target.parent(), path: target, bytes }
            },
            SnapshotEntry::Update { path, instructs } => {
                ApplyPlan::PatchFile { path: target(root, &path), instructs }
            },
            SnapshotEntry::Delete { path } => {
                if path.is_empty() {
                    ApplyPlan::Nothing
                } else {
                    ApplyPlan::Remove { path: root.join(&path) }
                }
            },
        };
        Ok(plan)
    }
}

/// A file that takes the place of another: it is written in `dir` under a
/// temporary name and then moved to `path`.
pub struct Replacement {
    pub dir: FilePath,
    pub path: FilePath,
    pub bytes: Vec<u8>,
}

/// What takes the place of the file at `path`, which holds `old`.
pub open spec fn replacement_of(
    path: PathView,
    instructs: Seq<InstructView>,
    old: Seq<u8>,
) -> Result<(PathView, Seq<u8>), crate::error::ErrorView> {
    match patched(old, instructs) {
        Err(e) => Err(e),
        Ok(bytes) => match crate::path::parent_text(path) {
            None => Err(crate::error::ErrorView::NoParentDir(path)),
            Some(dir) => Ok((dir, bytes)),
        },
    }
}

/// What takes the place of the file at `path`, which holds `old`.
pub fn rebuild(path: FilePath, instructs: &Vec<PatchInstructs>, old: &[u8]) -> (r: Result<
    Replacement,
    Error,
>)
    ensures
        match r {
            Ok(new) => {
                &&& replacement_of(path@, instruct_views(instructs@), old@) == Ok::<
                    (PathView, Seq<u8>),
                    crate::error::ErrorView,
                >((new.dir@, new.bytes@))
                &&& new.path@ == path@
            },
            Err(e) => replacement_of(path@, instruct_views(instructs@), old@) == Err::<
                (PathView, Seq<u8>),
                crate::error::ErrorView,
            >(e@),
        },
{
    match patch(old, instructs) {
        Err(e) => Err(e),
        Ok(bytes) => match path.parent() {
            None => Err(Error::NoParentDir(path)),
            Some(dir) => Ok(Replacement { dir, path, bytes }),
        },
    }
}

/// How something is removed.
#[derive(Debug, Clone, Copy, PartialEq, Eq, Structural)]
pub enum Removal {
    /// A directory with all that is in it.
    Tree,
    /// A file.
    File,
}

/// What came of a removal.
#[derive(Debug, Clone, Copy, PartialEq, Eq, Structural)]
pub enum RemovalOutcome {
    Removed,
    /// There was nothing to remove.
    Missing,
    /// It failed for another reason.
    Failed,
}

/// How the thing at a place is removed.
pub open spec fn removal_for(is_dir: bool) -> Removal {
    if is_dir {
        Removal::Tree
    } else {
        Removal::File
    }
}

/// Whether the place is now free: a file that was not there is as good as removed.
pub open spec fn is_gone(removal: Removal, outcome: RemovalOutcome) -> bool {
    match outcome {
        RemovalOutcome::Removed => true,
        RemovalOutcome::Missing => removal == Removal::File,
        RemovalOutcome::Failed => false,
    }
}

/// How the thing at a place is removed.
pub fn removal(is_dir: bool) -> (r: Removal)
    ensures
        r == removal_for(is_dir),
        r is Tree <==> is_dir,
{
    if is_dir {
        Removal::Tree
    } else {
        Removal::File
    }
}

/// Whether the place is now free.
pub fn is_removed(removal: Removal, outcome: RemovalOutcome) -> (r: bool)
    ensures
        r == is_gone(removal, outcome),
        r == (outcome is Removed || (outcome is Missing && removal is File)),
{
    match outcome {
        RemovalOutcome::Removed => true,
        RemovalOutcome::Missing => removal == Removal::File,
        RemovalOutcome::Failed => false,
    }
}

/// How many bytes of file contents the first `n` instructions carry.
pub open spec fn carried_by(instructs: Seq<InstructView>, n: nat) -> nat
    decreases n,
{
    if n == 0 {
        0
    } else {
        carried_by(instructs, (n - 1) as nat) + carried(instructs[n - 1])
    }
}

/// How many bytes of file contents a change carries.
pub open spec fn change_size(change: ChangeView) -> nat {
    match change {
        ChangeView::Create { bytes, .. } => bytes.len(),
        ChangeView::Update { instructs, .. } => carried_by(instructs, instructs.len()),
        ChangeView::Delete { .. } => 0,
    }
}

/// How many bytes of file contents the first `n` changes carry.
pub open spec fn changes_size(changes: Seq<ChangeView>, n: nat) -> nat
    decreases n,
{
    if n == 0 {
        0
    } else {
        changes_size(changes, (n - 1) as nat) + change_size(changes[n - 1])
    }
}

/// A number as a `u64`, or the largest one where it does not fit.
pub open spec fn as_count(n: nat) -> u64 {
    if n <= u64::MAX {
        n as u64
    } else {
        u64::MAX
    }
}

/// The sum of two counts; the largest count stands for what does not fit.
fn plus(a: u64, b: u64) -> (r: u64)
    ensures
        r == as_count((a + b) as nat),
{
    if b <= u64::MAX - a {
        a + b
    } else {
        u64::MAX
    }
}

impl SnapshotEntry {
    /// How many bytes of file contents the change carries.
    pub fn size(&self) -> (r: u64)
        ensures
            r == as_count(change_size(self@)),
    {
        match self {
            SnapshotEntry::Create { bytes, .. } => bytes.len() as u64,
            SnapshotEntry::Delete { .. } => 0,
            SnapshotEntry::Update { instructs, .. } => {
                let ghost views = instruct_views(instructs@);
                let mut total: u64 = 0;
                let mut i: usize = 0;
                while i < instructs.len()
                    invariant
                        i <= instructs.len(),
                        views == instruct_views(instructs@),
                        total == as_count(carried_by(views, i as nat)),
                    decreases instructs.len() - i,
                {
                    total = plus(total, instructs[i].get_length());
                    i += 1;
                }
                total
            },
        }
    }
}

/// How many bytes of file contents the changes carry.
pub fn total_size(changes: &Vec<SnapshotEntry>) -> (r: u64)
    ensures
        r == as_count(changes_size(change_views(changes@), changes@.len())),
{
    let ghost views = change_views(changes@);
    let mut total: u64 = 0;
    let mut i: usize = 0;
    while i < changes.len()
        invariant
            i <= changes.len(),
            views == change_views(changes@),
            total == as_count(changes_size(views, i as nat)),
        decreases changes.len() - i,
    {
        total = plus(total, changes[i].size());
        i += 1;
    }
    total
}

/// What a plan does is settled by the change and the root: a new file is written, with
/// just what the change holds, once the directory that is to hold it is made; a changed
/// file is rebuilt by just the instructions of the change; and what is deleted is removed,
/// unless the path is empty. The place is the path taken from the root.
pub proof fn lemma_plan(
    root: PathView,
    path: PathView,
    bytes: Seq<u8>,
    instructs: Seq<InstructView>,
)
    ensures
        ({
            let target = if path.len() == 0 {
                root
            } else {
                crate::path::pushed(root, path)
            };
            let parts = crate::path::parsed(target);
            &&& plan_of(ChangeView::Create { path, bytes }, root) matches PlanView::CreateFile {
                dir,
                path: at,
                bytes: contents,
            }
            &&& at == target
            &&& contents == bytes
            &&& match dir {
                Some(d) => {
                    &&& parts.len() > 0
                    &&& parts.last() != seq![0x2fu8]
                    &&& crate::path::parsed(d) == parts.drop_last()
                },
                None => parts.len() == 0 || parts.last() == seq![0x2fu8],
            }
            &&& plan_of(ChangeView::Update { path, instructs }, root) == (PlanView::PatchFile {
                path: target,
                instructs,
            })
            &&& plan_of(ChangeView::Delete { path }, root) == if path.len() == 0 {
                PlanView::Nothing
            } else {
                PlanView::Remove { path: target }
            }
        }),
{
    let target = target_of(root, path);
    crate::path::lemma_parsed_parent(target);
    assert(crate::path::root_part() =~= seq![0x2fu8]);
}

/// Each instruction adds to what those before it make: a copy the bytes of the old file
/// in its range, a literal its own. The first copy that reaches behind the end of the old
/// file is the error, and tells the range.
pub proof fn lemma_patched_step(old: Seq<u8>, instructs: Seq<InstructView>, next: InstructView)
    ensures
        patched(old, Seq::empty()) == Ok::<Seq<u8>, crate::error::ErrorView>(Seq::empty()),
        match (patched(old, instructs), next) {
            (Err(e), _) => patched(old, instructs.push(next)) == Err::<
                Seq<u8>,
                crate::error::ErrorView,
            >(e),
            (Ok(bytes), InstructView::Literal { data }) => patched(old, instructs.push(next))
                == Ok::<Seq<u8>, crate::error::ErrorView>(bytes + data),
            (Ok(bytes), InstructView::Copy { offset, length }) => {
                &&& offset + length <= old.len() ==> patched(old, instructs.push(next)) == Ok::<
                    Seq<u8>,
                    crate::error::ErrorView,
                >(bytes + old.subrange(offset as int, offset + length))
                &&& offset + length > old.len() ==> {
                    &&& patched(old, instructs.push(next)) matches Err(e)
                    &&& e matches crate::error::ErrorView::CopyInstructionOutOfBounds {
                        file_len,
                        start,
                        end,
                    }
                    &&& old.len() <= usize::MAX ==> file_len == old.len()
                    &&& offset <= usize::MAX ==> start == offset
                    &&& offset > usize::MAX ==> start == usize::MAX
                    &&& offset + length <= usize::MAX ==> end == offset + length
                    &&& offset + length > usize::MAX ==> end == usize::MAX
                }
            },
        },
{
    assert(instructs.push(next).drop_last() =~= instructs);
}

/// What takes the place of a file is what the instructions make of it, in the directory
/// that the file is in. It is an error if they fail, and else if there is no directory.
pub proof fn lemma_replacement(path: PathView, instructs: Seq<InstructView>, old: Seq<u8>)
    ensures
        match (patched(old, instructs), replacement_of(path, instructs, old)) {
            (Err(e), r) => r == Err::<(PathView, Seq<u8>), crate::error::ErrorView>(e),
            (Ok(bytes), Ok((dir, new))) => {
                let parts = crate::path::parsed(path);
                &&& new == bytes
                &&& parts.len() > 0
                &&& parts.last() != seq![0x2fu8]
                &&& crate::path::parsed(dir) == parts.drop_last()
            },
            (Ok(bytes), Err(e)) => {
                let parts = crate::path::parsed(path);
                &&& e == crate::error::ErrorView::NoParentDir(path)
                &&& parts.len() == 0 || parts.last() == seq![0x2fu8]
            },
        },
{
    crate::path::lemma_parsed_parent(path);
    assert(crate::path::root_part() =~= seq![0x2fu8]);
}

/// The sizes of changes add up; a new file counts all that it holds, an update its
/// literals, and a deletion nothing.
pub proof fn lemma_sizes(
    changes: Seq<ChangeView>,
    n: nat,
    instructs: Seq<InstructView>,
    m: nat,
    path: PathView,
    bytes: Seq<u8>,
)
    ensures
        changes_size(changes, 0) == 0,
        changes_size(changes, n + 1) == changes_size(changes, n) + change_size(changes[n as int]),
        change_size(ChangeView::Create { path, bytes }) == bytes.len(),
        change_size(ChangeView::Delete { path }) == 0,
        change_size(ChangeView::Update { path, instructs }) == carried_by(
            instructs,
            instructs.len(),
        ),
        carried_by(instructs, 0) == 0,
        carried_by(instructs, m + 1) == carried_by(instructs, m) + match instructs[m as int] {
            InstructView::Copy { .. } => 0,
            InstructView::Literal { data } => data.len(),
        },
        n <= u64::MAX ==> as_count(n) == n,
        n > u64::MAX ==> as_count(n) == u64::MAX,
{
}

/// The debug output of a change names its kind, its path, and the number of its bytes or
/// instructions.
pub proof fn lemma_debug(
    path: PathView,
    bytes: Seq<u8>,
    instructs: Seq<InstructView>,
    shown: Seq<char>,
)
    ensures
        debug_of(ChangeView::Create { path, bytes }, shown) == "Create { path: "@ + shown
            + ", b_len: "@ + crate::text::decimal(bytes.len()) + " }"@,
        debug_of(ChangeView::Delete { path }, shown) == "Delete { path: "@ + shown + " }"@,
        debug_of(ChangeView::Update { path, instructs }, shown) == "Update { path: "@ + shown
            + ", instructs_len: "@ + crate::text::decimal(instructs.len()) + " }"@,
{
}

/// The views of instructions, changes and plans show their kind and all that they hold.
pub proof fn lemma_views(instruct: PatchInstructs, change: SnapshotEntry, plan: ApplyPlan)
    ensures
        instruct matches PatchInstructs::Copy { offset, length } ==> instruct@ == (
        InstructView::Copy { offset, length }),
        instruct matches PatchInstructs::Literal { data } ==> instruct@ == (
        InstructView::Literal { data: data@ }),
        change matches SnapshotEntry::Create { path, bytes } ==> change@ == (ChangeView::Create {
            path: path@,
            bytes: bytes@,
        }) && change@.place() == path@,
        change matches SnapshotEntry::Delete { path } ==> change@ == (ChangeView::Delete {
            path: path@,
        }) && change@.place() == path@,
        change matches SnapshotEntry::Update { path, instructs } ==> change@ == (
        ChangeView::Update { path: path@, instructs: instruct_views(instructs@) })
            && change@.place() == path@,
        plan matches ApplyPlan::Nothing ==> plan@ is Nothing,
        plan matches ApplyPlan::CreateFile { dir: Some(dir), path, bytes } ==> plan@ == (
        PlanView::CreateFile { dir: Some(dir@), path: path@, bytes: bytes@ }),
        plan matches ApplyPlan::CreateFile { dir: None, path, bytes } ==> plan@ == (
        PlanView::CreateFile { dir: None, path: path@, bytes: bytes@ }),
        plan matches ApplyPlan::PatchFile { path, instructs } ==> plan@ == (PlanView::PatchFile {
            path: path@,
            instructs: instruct_views(instructs@),
        }),
        plan matches ApplyPlan::Remove { path } ==> plan@ == (PlanView::Remove { path: path@ }),
{
}

/// The views of lists show each instruction and each change, in its place.
pub proof fn lemma_list_views(instructs: Seq<PatchInstructs>, changes: Seq<SnapshotEntry>)
    ensures
        instruct_views(instructs).len() == instructs.len(),
        forall|i: int|
            #![trigger instruct_views(instructs)[i]]
            0 <= i < instructs.len() ==> instruct_views(instructs)[i] == instructs[i]@,
        change_views(changes).len() == changes.len(),
        forall|i: int|
            #![trigger change_views(changes)[i]]
            0 <= i < changes.len() ==> change_views(changes)[i] == changes[i]@,
{
}

} // verus!
