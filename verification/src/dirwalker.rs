//! What is found when a directory tree is walked.

use crate::chunker::{chunk, FileChunk};
use crate::error::Error;
use crate::path::{FilePath, PathView};
use vstd::prelude::*;

verus! {

/// A directory or a file of a tree.
#[derive(Debug)]
pub enum PathEntry {
    Dir { path: FilePath },
    File { path: FilePath, chunks: Vec<FileChunk> },
}

/// What an entry says.
pub enum PathEntryView {
    Dir { path: PathView },
    File { path: PathView, chunks: Seq<FileChunk> },
}

impl PathEntryView {
    /// Where the entry was found.
    pub open spec fn location(self) -> PathView {
        match self {
            PathEntryView::Dir { path } => path,
            PathEntryView::File { path, .. } => path,
        }
    }
}

impl View for PathEntry {
    type V = PathEntryView;

    open spec fn view(&self) -> PathEntryView {
        match self {
            PathEntry::Dir { path } => PathEntryView::Dir { path: path@ },
            PathEntry::File { path, chunks } => PathEntryView::File {
                path: path@,
                chunks: chunks@,
            },
        }
    }
}

impl PathEntry {
    /// Where the entry was found.
    pub fn into_path(&self) -> (r: FilePath)
        ensures
            r@ == self@.location(),
            match *self {
                PathEntry::Dir { path } => r@ == path@,
                PathEntry::File { path, .. } => r@ == path@,
            },
    {
        match self {
            PathEntry::Dir { path } => path.clone(),
            PathEntry::File { path, .. } => path.clone(),
        }
    }

    /// Where the entry lies below `root`.
    pub fn into_path_root_trimmed(&self, root: &FilePath) -> (r: Result<FilePath, Error>)
        ensures
            match r {
                Ok(rest) => {
                    &&& crate::path::stripped_text(self@.location(), root@) == Some(rest@)
                    &&& crate::path::stripped(
                        crate::path::parsed(self@.location()),
                        crate::path::parsed(root@),
                    ) == Some(crate::path::parsed(rest@))
                },
                Err(e) => {
                    &&& crate::path::stripped_text(self@.location(), root@) is None
                    &&& crate::path::stripped(
                        crate::path::parsed(self@.location()),
                        crate::path::parsed(root@),
                    ) is None
                    &&& e@ == crate::error::ErrorView::StripPrefix
                },
            },
    {
        match self.into_path().strip_prefix(root) {
            Some(rest) => Ok(rest),
            None => Err(Error::StripPrefix),
        }
    }
}

/// What a walk came across.
pub enum Found<'a> {
    /// A directory.
    Dir(FilePath),
    /// Anything that is no directory, with its contents.
    File(FilePath, &'a [u8]),
    /// Something that could not be accessed.
    Inaccessible,
}

/// Whether a walk goes on.
#[derive(Debug, Clone, Copy, PartialEq, Eq, Structural)]
pub enum WalkState {
    Continue,
    Quit,
}

/// The entry that stands for what was found: what could not be accessed is left
/// out of the tree.
pub fn visit(found: Found) -> (r: Option<PathEntry>)
    ensures
        match found {
            Found::Dir(path) => r matches Some(e) && e@ == (PathEntryView::Dir { path: path@ }),
            Found::File(path, data) => {
                &&& r matches Some(e)
                &&& e@ == (PathEntryView::File {
                    path: path@,
                    chunks: crate::chunker::chunks(data@),
                })
                &&& crate::chunker::is_chunking(crate::chunker::chunks(data@), data@)
                &&& e matches PathEntry::File { chunks, .. }
                &&& chunks@.len() == crate::chunker::cut_points(
                    data@,
                    16384,
                    32768,
                    131072,
                ).len()
            },
            Found::Inaccessible => r is None,
        },
{
    match found {
        Found::Dir(path) => Some(PathEntry::Dir { path }),
        Found::File(path, data) => Some(PathEntry::File { path, chunks: chunk(data) }),
        Found::Inaccessible => None,
    }
}

/// How a walk goes on after a visit. `delivered` says whether the entry was taken, if
/// there was one: the walk ends once nobody takes its entries, and goes on past what
/// could not be accessed.
pub fn after_visit(delivered: Option<bool>) -> (r: WalkState)
    ensures
        r == (if delivered == Some(false) {
            WalkState::Quit
        } else {
            WalkState::Continue
        }),
{
    match delivered {
        Some(false) => WalkState::Quit,
        _ => WalkState::Continue,
    }
}

/// The view of an entry shows its kind and all that it holds, and its location is its path.
pub proof fn lemma_entry_view(entry: PathEntry)
    ensures
        entry matches PathEntry::Dir { path } ==> entry@ == (PathEntryView::Dir { path: path@ })
            && entry@.location() == path@,
        entry matches PathEntry::File { path, chunks } ==> entry@ == (PathEntryView::File {
            path: path@,
            chunks: chunks@,
        }) && entry@.location() == path@,
{
}

} // verus!
