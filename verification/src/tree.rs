//! What becomes of a tree of files when changes are applied to it.

use crate::dirwalker::PathEntryView;
use crate::listing::SnapshotView;
use crate::path::{PathView, Parts};
use crate::snapshot::{ChangeView, PlanView, Removal, RemovalOutcome};
use vstd::prelude::*;

verus! {

/// What stands at a place of a file system.
pub enum Node {
    Dir,
    File(Seq<u8>),
}

/// A file system: what stands where. Each component of a path is a name in it; there
/// are no links, and no component leads upwards.
pub type Disk = Map<Parts, Node>;

/// Whether a file stands at the place.
pub open spec fn is_file(disk: Disk, path: Parts) -> bool {
    disk.contains_key(path) && disk[path] is File
}

/// Whether a directory stands at the place.
pub open spec fn is_dir(disk: Disk, path: Parts) -> bool {
    disk.contains_key(path) && disk[path] is Dir
}

/// Whether `above` is one of the directories that lead to `path`.
pub open spec fn leads_to(above: Parts, path: Parts) -> bool {
    0 < above.len() < path.len() && above.is_prefix_of(path)
}

/// Whether a file stands in the way to `path`.
pub open spec fn is_blocked(disk: Disk, path: Parts) -> bool {
    exists|above: Parts| #[trigger] leads_to(above, path) && is_file(disk, above)
}

/// The file system with a file at `path` and directories on the way to it.
pub open spec fn with_file(disk: Disk, path: Parts, bytes: Seq<u8>) -> Disk {
    Map::new(
        |p: Parts| disk.contains_key(p) || leads_to(p, path) || p == path,
        |p: Parts|
            if p == path {
                Node::File(bytes)
            } else if leads_to(p, path) {
                Node::Dir
            } else {
                disk[p]
            },
    )
}

/// The file system without what stands at `path` and below it.
pub open spec fn without_tree(disk: Disk, path: Parts) -> Disk {
    disk.restrict(Set::new(|p: Parts| !path.is_prefix_of(p)))
}

/// Whether the text ends with a dot that is a piece of its own, separators behind it aside.
pub open spec fn ends_in_dot(text: PathView) -> bool
    decreases text.len(),
{
    if text.len() > 1 && text.last() == crate::path::SEPARATOR {
        ends_in_dot(text.drop_last())
    } else {
        &&& text.len() > 0
        &&& text.last() == crate::path::DOT
        &&& text.len() == 1 || text[text.len() - 2] == crate::path::SEPARATOR
    }
}

/// What comes of removing what stands at a path. A file is not removed by a path that
/// has anything behind its name, nor a directory by one that ends in a dot.
pub open spec fn outcome_of(disk: Disk, path: PathView, how: Removal) -> RemovalOutcome {
    let place = crate::path::parsed(path);
    if is_blocked(disk, place) {
        RemovalOutcome::Failed
    } else if !disk.contains_key(place) {
        RemovalOutcome::Missing
    } else {
        let fits = match how {
            Removal::Tree => is_dir(disk, place) && !ends_in_dot(path),
            Removal::File => is_file(disk, place) && crate::path::is_plain(path),
        };
        if fits {
            RemovalOutcome::Removed
        } else {
            RemovalOutcome::Failed
        }
    }
}

/// Whether a directory to be made is the one that is to hold what comes to the place.
pub open spec fn makes_way(dir: Option<PathView>, place: Parts) -> bool {
    &&& dir is Some
    &&& place.len() > 0
    &&& crate::path::parsed(dir->0) == place.drop_last()
}

/// What becomes of the file system when a plan is carried out; `None` if it fails.
/// Directories are made as far as the plan says; a file cannot be written without the
/// one that is to hold it.
pub open spec fn carried_out(disk: Disk, plan: PlanView) -> Option<Disk> {
    match plan {
        PlanView::Nothing => Some(disk),
        PlanView::CreateFile { dir, path, bytes } => {
            let place = crate::path::parsed(path);
            if !makes_way(dir, place) || !crate::path::is_plain(path) || is_blocked(disk, place)
                || is_dir(disk, place) {
                None
            } else {
                Some(with_file(disk, place, bytes))
            }
        },
        PlanView::PatchFile { path, instructs } => {
            let place = crate::path::parsed(path);
            if is_file(disk, place) && crate::path::is_plain(path) {
                match crate::snapshot::replacement_of(path, instructs, disk[place]->File_0) {
                    Ok((dir, bytes)) => Some(disk.insert(place, Node::File(bytes))),
                    Err(e) => None,
                }
            } else {
                None
            }
        },
        PlanView::Remove { path } => {
            let place = crate::path::parsed(path);
            let how = crate::snapshot::removal_for(is_dir(disk, place));
            let outcome = outcome_of(disk, path, how);
            if !crate::snapshot::is_gone(how, outcome) {
                None
            } else if outcome == RemovalOutcome::Missing {
                Some(disk)
            } else {
                match how {
                    Removal::Tree => Some(without_tree(disk, place)),
                    Removal::File => Some(disk.remove(place)),
                }
            }
        },
    }
}

/// Whether there is something at the root.
pub open spec fn root_exists(disk: Disk, root: PathView) -> bool {
    let place = crate::path::parsed(root);
    &&& root.len() > 0
    &&& !is_blocked(disk, place)
    &&& disk.contains_key(place)
    &&& is_file(disk, place) ==> crate::path::is_plain(root)
}

/// What becomes of the file system when the changes are applied below `root`, one
/// after the other; `None` if one of them fails, as all do if there is no root.
pub open spec fn applied(disk: Disk, root: PathView, changes: Seq<ChangeView>) -> Option<Disk>
    decreases changes.len(),
{
    if changes.len() == 0 {
        Some(disk)
    } else {
        match applied(disk, root, changes.drop_last()) {
            None => None,
            Some(before) => if root_exists(before, root) {
                carried_out(before, crate::snapshot::plan_of(changes.last(), root))
            } else {
                None
            },
        }
    }
}

/// The place of item `i` of a snapshot below the root.
pub open spec fn place(s: SnapshotView, i: int) -> Parts {
    crate::key::path_of(s[i].0)
}

/// Whether item `i` of the snapshot stands at `path`.
pub open spec fn stands_at(s: SnapshotView, i: int, path: Parts) -> bool {
    0 <= i < s.len() && place(s, i) == path
}

/// Whether the snapshot has a directory at `path`.
pub open spec fn lists_dir(s: SnapshotView, path: Parts) -> bool {
    exists|i: int| #[trigger] stands_at(s, i, path) && s[i].1 is Dir
}

/// Whether the snapshot has anything at `path`.
pub open spec fn lists(s: SnapshotView, path: Parts) -> bool {
    exists|i: int| #[trigger] stands_at(s, i, path)
}

/// Whether the snapshot has a file that holds `bytes` at `path`.
pub open spec fn lists_file(
    s: SnapshotView,
    contents: Seq<Seq<u8>>,
    path: Parts,
    bytes: Seq<u8>,
) -> bool {
    exists|i: int|
        #[trigger] stands_at(s, i, path) && s[i].1 is File && contents[i] == bytes
}

/// Whether the snapshot is one of a tree of which the files hold `contents`: keys
/// and places correspond, places lie below the root, what leads to an entry is a
/// directory of the tree, and files are listed by the chunks of what they hold.
pub open spec fn is_snapshot(s: SnapshotView, contents: Seq<Seq<u8>>) -> bool {
    &&& contents.len() == s.len()
    &&& crate::listing::distinct_keys(s)
    &&& forall|i: int|
        #![trigger place(s, i)]
        0 <= i < s.len() ==> {
            &&& crate::key::key_of(place(s, i)) == s[i].0
            &&& !crate::path::is_absolute(place(s, i))
            &&& place(s, i).len() > 0 ==> place(s, i)[0] != crate::path::dot_part()
            &&& place(s, i).len() == 0 ==> s[i].1 is Dir
            &&& crate::path::is_plain(crate::key::spelled(s[i].0))
        }
    &&& forall|i: int, above: Parts|
        #![trigger leads_to(above, place(s, i))]
        0 <= i < s.len() && leads_to(above, place(s, i)) ==> lists_dir(s, above)
    &&& forall|i: int|
        #![trigger s[i]]
        0 <= i < s.len() && s[i].1 is File ==> crate::chunker::is_chunking(
            s[i].1->chunks,
            contents[i],
        )
}

/// Where an entry of a walk lies below the root.
pub open spec fn place_below(root: PathView, entry: PathEntryView) -> Parts {
    crate::path::parsed(entry.location()).skip(crate::path::parsed(root).len() as int)
}

/// Whether a directory of the walk lies at `path` below the root.
pub open spec fn walks_dir(root: PathView, walk: Seq<PathEntryView>, path: Parts) -> bool {
    exists|i: int|
        #![trigger walk[i]]
        0 <= i < walk.len() && place_below(root, walk[i]) == path && walk[i] is Dir
}

/// Whether the entries are those of a walk through the tree at `root`, a directory, of
/// which the files hold `contents`: nothing is found twice or outside of the tree, names
/// are text, what leads to an entry is a directory of the tree, and files come with
/// the chunks of what they hold.
pub open spec fn is_walk(
    root: PathView,
    walk: Seq<PathEntryView>,
    contents: Seq<Seq<u8>>,
) -> bool {
    &&& root.len() > 0
    &&& contents.len() == walk.len()
    &&& forall|i: int|
        #![trigger walk[i]]
        0 <= i < walk.len() ==> {
            &&& crate::path::parsed(root).is_prefix_of(crate::path::parsed(walk[i].location()))
            &&& place_below(root, walk[i]).len() == 0 ==> walk[i] is Dir
            &&& walk[i] is File ==> crate::chunker::is_chunking(walk[i]->chunks, contents[i])
        }
    &&& forall|i: int, k: int|
        #![trigger place_below(root, walk[i])[k]]
        0 <= i < walk.len() && 0 <= k < place_below(root, walk[i]).len()
            ==> vstd::utf8::valid_utf8(place_below(root, walk[i])[k])
    &&& forall|i: int, j: int|
        #![trigger walk[i], walk[j]]
        0 <= i < walk.len() && 0 <= j < walk.len() && crate::path::parsed(walk[i].location())
            == crate::path::parsed(walk[j].location()) ==> i == j
    &&& forall|i: int, above: Parts|
        #![trigger leads_to(above, place_below(root, walk[i]))]
        0 <= i < walk.len() && leads_to(above, place_below(root, walk[i])) ==> walks_dir(
            root,
            walk,
            above,
        )
}

/// The first `n` entries of a walk, each under the key of its place below the root.
pub open spec fn keyed(root: PathView, walk: Seq<PathEntryView>, n: nat) -> SnapshotView {
    Seq::new(n, |i: int| (crate::key::key_of(place_below(root, walk[i])), walk[i]))
}

/// The places that a walk finds are spelled by their keys, and each is found once.
proof fn lemma_walk_place(
    root: PathView,
    walk: Seq<PathEntryView>,
    contents: Seq<Seq<u8>>,
    i: int,
)
    requires
        is_walk(root, walk, contents),
        0 <= i < walk.len(),
    ensures
        ({
            let path = place_below(root, walk[i]);
            &&& crate::path::stripped(
                crate::path::parsed(walk[i].location()),
                crate::path::parsed(root),
            ) == Some(path)
            &&& crate::path::is_plain(crate::key::spelled(crate::key::key_of(path)))
            &&& crate::key::path_of(crate::key::key_of(path)) == path
            &&& !crate::path::is_absolute(path)
            &&& path.len() > 0 ==> path[0] != crate::path::dot_part()
            &&& crate::path::parsed(walk[i].location()) == crate::path::parsed(root) + path
        }),
{
    let location = crate::path::parsed(walk[i].location());
    let front = crate::path::parsed(root);
    let path = place_below(root, walk[i]);
    crate::path::lemma_parsed_is_clean(walk[i].location());
    crate::path::lemma_parsed_some(root);
    assert(location =~= front + path) by {
        assert(front =~= location.subrange(0, front.len() as int));
    }
    assert forall|k: int| #![trigger path[k]] 0 <= k < path.len() implies {
        &&& path[k].len() > 0
        &&& path[k] != crate::path::dot_part()
        &&& !path[k].contains(crate::path::SEPARATOR)
        &&& vstd::utf8::valid_utf8(path[k])
    } by {
        assert(path[k] == location[front.len() + k]);
        assert(vstd::utf8::valid_utf8(place_below(root, walk[i])[k]));
    }
    crate::key::lemma_key_spells_path(path);
    crate::key::lemma_key_joins(path);
    crate::path::lemma_joined_is_plain(path);
    if crate::path::is_absolute(path) {
        let first = path[0];
        assert(first[0] == crate::path::SEPARATOR);
        assert(first.contains(first[0]));
    }
}

proof fn lemma_walk_so_far(
    root: PathView,
    walk: Seq<PathEntryView>,
    contents: Seq<Seq<u8>>,
    n: nat,
)
    requires
        is_walk(root, walk, contents),
        n <= walk.len(),
    ensures
        crate::listing::collected(root, walk, n) == Ok::<SnapshotView, crate::error::ErrorView>(
            keyed(root, walk, n),
        ),
    decreases n,
{
    if n == 0 {
        assert(keyed(root, walk, 0) =~= Seq::empty());
    } else {
        let m = n - 1;
        lemma_walk_so_far(root, walk, contents, m as nat);
        lemma_walk_place(root, walk, contents, m);
        let before = keyed(root, walk, m as nat);
        let key = crate::key::key_of(place_below(root, walk[m]));
        if crate::listing::has_key(before, key) {
            let i = choose|i: int| crate::listing::is_at(before, key, i);
            lemma_walk_place(root, walk, contents, i);
            assert(crate::path::parsed(walk[i].location()) == crate::path::parsed(
                walk[m].location(),
            ));
        }
        assert(keyed(root, walk, n) =~= before.push((key, walk[m])));
    }
}

/// A walk gives a snapshot of the tree: each entry is listed at its place, once.
pub proof fn lemma_walk_gives_snapshot(
    root: PathView,
    walk: Seq<PathEntryView>,
    contents: Seq<Seq<u8>>,
)
    requires
        is_walk(root, walk, contents),
    ensures
        crate::listing::collected(root, walk, walk.len()) == Ok::<
            SnapshotView,
            crate::error::ErrorView,
        >(keyed(root, walk, walk.len())),
        is_snapshot(keyed(root, walk, walk.len()), contents),
        forall|i: int|
            #![trigger walk[i]]
            0 <= i < walk.len() ==> place(keyed(root, walk, walk.len()), i) == place_below(
                root,
                walk[i],
            ),
{
    let s = keyed(root, walk, walk.len());
    lemma_walk_so_far(root, walk, contents, walk.len());
    assert forall|i: int| #![trigger walk[i]] 0 <= i < walk.len() implies place(s, i)
        == place_below(root, walk[i]) by {
        lemma_walk_place(root, walk, contents, i);
    }
    assert forall|i: int| #![trigger place(s, i)] 0 <= i < s.len() implies {
        &&& crate::key::key_of(place(s, i)) == s[i].0
        &&& !crate::path::is_absolute(place(s, i))
        &&& place(s, i).len() > 0 ==> place(s, i)[0] != crate::path::dot_part()
        &&& place(s, i).len() == 0 ==> s[i].1 is Dir
        &&& crate::path::is_plain(crate::key::spelled(s[i].0))
    } by {
        lemma_walk_place(root, walk, contents, i);
    }
    assert(crate::listing::distinct_keys(s)) by {
        assert forall|i: int, j: int|
            #![trigger s[i], s[j]]
            0 <= i < s.len() && 0 <= j < s.len() && s[i].0 == s[j].0 implies i == j by {
            lemma_walk_place(root, walk, contents, i);
            lemma_walk_place(root, walk, contents, j);
            assert(crate::path::parsed(walk[i].location()) == crate::path::parsed(
                walk[j].location(),
            ));
        }
    }
    assert forall|i: int, above: Parts|
        #![trigger leads_to(above, place(s, i))]
        0 <= i < s.len() && leads_to(above, place(s, i)) implies lists_dir(s, above) by {
        assert(walk[i] == s[i].1);
        assert(leads_to(above, place_below(root, walk[i])));
        let d = choose|d: int|
            #![trigger walk[d]]
            0 <= d < walk.len() && place_below(root, walk[d]) == above && walk[d] is Dir;
        assert(stands_at(s, d, above));
        assert(s[d].1 is Dir);
    }
}

/// Whether the file system has below `root` what the snapshot lists.
pub open spec fn is_listed(
    disk: Disk,
    root: Parts,
    s: SnapshotView,
    contents: Seq<Seq<u8>>,
) -> bool {
    forall|i: int|
        #![trigger s[i]]
        0 <= i < s.len() && place(s, i).len() > 0 ==> {
            &&& disk.contains_key(root + place(s, i))
            &&& disk[root + place(s, i)] == match s[i].1 {
                PathEntryView::Dir { .. } => Node::Dir,
                PathEntryView::File { .. } => Node::File(contents[i]),
            }
        }
}

/// Two trees, the old one being below the root that `base` spells.
pub struct Exchange {
    pub base: PathView,
    pub old: SnapshotView,
    pub old_data: Seq<Seq<u8>>,
    pub new: SnapshotView,
    pub new_data: Seq<Seq<u8>>,
}

impl Exchange {
    /// The place of the root.
    pub open spec fn root(self) -> Parts {
        crate::path::parsed(self.base)
    }

    /// The changes from the old tree to the new one.
    pub open spec fn changes(self) -> Seq<ChangeView> {
        crate::diff::changes(self.old, self.new, self.new_data)
    }

    /// Whether no file is taken for another because of a hash.
    pub open spec fn hashes_are_faithful(self) -> bool {
        forall|i: int, j: int|
            #![trigger self.old[i], self.new[j]]
            0 <= i < self.old.len() && 0 <= j < self.new.len() && self.old[i].0 == self.new[j].0
                && self.old[i].1 is File && self.new[j].1 is File ==> {
                let (a, b) = (self.old[i].1->chunks, self.new[j].1->chunks);
                if crate::diff::same_hashes(a, b) {
                    crate::diff::matches_are_faithful(a, self.old_data[i], b, self.new_data[j])
                } else {
                    crate::diff::copies_are_faithful(a, self.old_data[i], b, self.new_data[j])
                }
            }
    }

    /// Whether a directory that gives way to a file is an empty one.
    pub open spec fn replaced_dirs_are_empty(self) -> bool {
        forall|i: int, j: int, k: int|
            #![trigger leads_to(place(self.old, i), place(self.old, k)), self.new[j]]
            0 <= i < self.old.len() && 0 <= j < self.new.len() && 0 <= k < self.old.len()
                && self.old[i].1 is Dir && self.new[j].1 is File && place(self.old, i) == place(
                self.new,
                j,
            ) ==> !leads_to(place(self.old, i), place(self.old, k))
    }

    /// Whether a directory that takes the place of a file is listed before the files in it.
    pub open spec fn replaced_files_come_first(self) -> bool {
        forall|i: int, j: int, k: int|
            #![trigger self.old[i], self.new[j], self.new[k]]
            0 <= i < self.old.len() && 0 <= j < self.new.len() && 0 <= k < self.new.len()
                && self.old[i].1 is File && self.new[j].1 is Dir && self.new[k].1 is File && place(
                self.old,
                i,
            ) == place(self.new, j) && leads_to(place(self.new, j), place(self.new, k)) ==> j < k
    }

    /// Whether what is below the root without being listed in the old tree is of the
    /// kind that the new tree has there, if it has anything there.
    pub open spec fn strays_fit(self, disk: Disk) -> bool {
        forall|path: Parts|
            #![trigger self.root() + path]
            path.len() > 0 && disk.contains_key(self.root() + path) && !lists(self.old, path)
                && lists(self.new, path) ==> (is_dir(disk, self.root() + path) <==> lists_dir(
                self.new,
                path,
            ))
    }

    /// Whether something that neither tree lists is at the place below the root.
    pub open spec fn is_aside(self, disk: Disk, path: Parts) -> bool {
        &&& path.len() > 0
        &&& disk.contains_key(self.root() + path)
        &&& !lists(self.old, path)
        &&& !lists(self.new, path)
    }

    /// Whether the place is in a directory that the new tree lacks.
    pub open spec fn is_doomed(self, path: Parts) -> bool {
        exists|above: Parts| #[trigger]
            leads_to(above, path) && lists_dir(self.old, above) && !lists_dir(self.new, above)
    }

    /// Whether the old tree is below the root of the file system, and the new tree is a tree.
    pub open spec fn starts_from(self, disk: Disk) -> bool {
        &&& is_snapshot(self.old, self.old_data)
        &&& is_snapshot(self.new, self.new_data)
        &&& is_listed(disk, self.root(), self.old, self.old_data)
        &&& self.base.len() > 0
        &&& is_dir(disk, self.root())
        &&& forall|above: Parts| #[trigger] leads_to(above, self.root()) ==> is_dir(disk, above)
    }

    /// Whether the file system below the root has the files of the new tree with what
    /// they hold, no other files, and no directories that the new tree lacks; and
    /// whether nothing else has changed, except that what neither tree lists is gone
    /// with the directory that it was in.
    pub open spec fn ends_in(self, before: Disk, after: Disk) -> bool {
        &&& forall|path: Parts, bytes: Seq<u8>|
            #![trigger lists_file(self.new, self.new_data, path, bytes)]
            path.len() > 0 && !self.is_aside(before, path) ==> (lists_file(
                self.new,
                self.new_data,
                path,
                bytes,
            ) <==> (is_file(after, self.root() + path) && after[self.root() + path] == Node::File(
                bytes,
            )))
        &&& forall|path: Parts|
            #![trigger lists_dir(self.new, path)]
            path.len() > 0 && !self.is_aside(before, path) && is_dir(after, self.root() + path)
                ==> lists_dir(self.new, path)
        &&& forall|path: Parts|
            #![trigger lists_dir(self.new, path)]
            path.len() > 0 && lists_dir(self.new, path) && is_dir(before, self.root() + path)
                ==> is_dir(after, self.root() + path)
        &&& self.keeps_asides(before, after)
        &&& forall|path: Parts|
            #![trigger after.contains_key(path)]
            !self.root().is_prefix_of(path) || path == self.root() ==> {
                &&& after.contains_key(path) == before.contains_key(path)
                &&& after.contains_key(path) ==> after[path] == before[path]
            }
    }

    /// Whether what neither tree lists is as it was, where it is not in a directory
    /// that the new tree lacks, and is as it was or gone where it is in one.
    pub open spec fn keeps_asides(self, before: Disk, after: Disk) -> bool {
        forall|path: Parts|
            #![trigger self.is_aside(before, path)]
            self.is_aside(before, path) ==> {
                &&& !self.is_doomed(path) ==> after.contains_key(self.root() + path)
                &&& after.contains_key(self.root() + path) ==> after[self.root() + path]
                    == before[self.root() + path]
            }
    }

    /// Whether one of the first `n` items of the new tree stands at `path`.
    spec fn is_handled(self, n: int, path: Parts) -> bool {
        exists|j: int| #[trigger] stands_at(self.new, j, path) && j < n
    }

    /// Whether one of the first `n` items of the new tree is a file at `path`.
    spec fn is_filed(self, n: int, path: Parts) -> bool {
        exists|j: int| #[trigger] stands_at(self.new, j, path) && j < n && self.new[j].1 is File
    }

    /// What holds of the file system once the first `n` items of the new tree are
    /// dealt with, except perhaps at the place `open`.
    spec fn is_midway(self, start: Disk, disk: Disk, n: int, open: Option<Parts>) -> bool {
        &&& forall|j: int|
            #![trigger self.new[j]]
            0 <= j < n && self.new[j].1 is File && open != Some(place(self.new, j)) ==> {
                &&& disk.contains_key(self.root() + place(self.new, j))
                &&& disk[self.root() + place(self.new, j)] == Node::File(self.new_data[j])
            }
        &&& forall|i: int|
            #![trigger self.old[i]]
            0 <= i < self.old.len() && self.old[i].1 is File && open != Some(place(self.old, i))
                && !self.is_handled(n, place(self.old, i)) ==> {
                &&& disk.contains_key(self.root() + place(self.old, i))
                &&& disk[self.root() + place(self.old, i)] == Node::File(self.old_data[i])
            }
        &&& forall|i: int|
            #![trigger self.old[i]]
            0 <= i < self.old.len() && self.old[i].1 is Dir && open != Some(place(self.old, i))
                && place(self.old, i).len() > 0 && !self.is_filed(n, place(self.old, i))
                ==> is_dir(disk, self.root() + place(self.old, i))
        &&& forall|path: Parts|
            #![trigger self.root() + path]
            path.len() > 0 && open != Some(path) && !self.is_aside(start, path) && is_file(
                disk,
                self.root() + path,
            ) ==> self.is_filed(n, path) || (self.may_be_file(start, path) && !self.is_handled(
                n,
                path,
            ))
        &&& forall|path: Parts|
            #![trigger self.root() + path]
            path.len() > 0 && open != Some(path) && !self.is_aside(start, path) && is_dir(
                disk,
                self.root() + path,
            ) ==> lists_dir(self.new, path) || (lists_dir(self.old, path) && !self.is_filed(
                n,
                path,
            ))
        &&& forall|path: Parts|
            #![trigger self.root() + path]
            path.len() > 0 && open != Some(path) && lists_dir(self.new, path) && is_dir(
                start,
                self.root() + path,
            ) ==> is_dir(disk, self.root() + path)
        &&& self.keeps_asides(start, disk)
        &&& self.is_same_outside(start, disk)
    }

    /// Whether item `k` of the old tree is one that is left over, the first `n` of them
    /// being dealt with.
    spec fn is_left(self, n: int, k: int) -> bool {
        n <= k < self.old.len() && !lists(self.new, place(self.old, k))
    }

    /// What holds of the file system once all items of the new tree and the first `n`
    /// of the old one are dealt with.
    spec fn is_clearing(self, start: Disk, disk: Disk, n: int) -> bool {
        &&& forall|j: int|
            #![trigger self.new[j]]
            0 <= j < self.new.len() && self.new[j].1 is File ==> {
                &&& disk.contains_key(self.root() + place(self.new, j))
                &&& disk[self.root() + place(self.new, j)] == Node::File(self.new_data[j])
            }
        &&& forall|path: Parts|
            #![trigger self.root() + path]
            path.len() > 0 && !self.is_aside(start, path) && is_file(disk, self.root() + path)
                ==> self.is_filed(self.new.len() as int, path) || exists|k: int| #[trigger]
                stands_at(self.old, k, path) && self.is_left(n, k) && self.old[k].1 is File
        &&& forall|path: Parts|
            #![trigger self.root() + path]
            path.len() > 0 && !self.is_aside(start, path) && is_dir(disk, self.root() + path)
                ==> lists_dir(self.new, path) || exists|k: int| #[trigger]
                stands_at(self.old, k, path) && self.is_left(n, k) && self.old[k].1 is Dir
        &&& forall|path: Parts|
            #![trigger self.root() + path]
            path.len() > 0 && lists_dir(self.new, path) && is_dir(start, self.root() + path)
                ==> is_dir(disk, self.root() + path)
        &&& self.keeps_asides(start, disk)
        &&& self.is_same_outside(start, disk)
    }

    /// Whether there is a file at `path` to begin with, listed in the old tree or else
    /// not listed there at all.
    spec fn may_be_file(self, start: Disk, path: Parts) -> bool {
        self.lists_old_file(path) || (is_file(start, self.root() + path) && !lists(self.old, path))
    }

    /// Whether the old tree has a file at `path`.
    spec fn lists_old_file(self, path: Parts) -> bool {
        exists|i: int| #[trigger] stands_at(self.old, i, path) && self.old[i].1 is File
    }

    /// Whether two file systems are the same at the root and outside of it.
    spec fn is_same_outside(self, start: Disk, disk: Disk) -> bool {
        forall|path: Parts|
            #![trigger disk.contains_key(path)]
            !self.root().is_prefix_of(path) || path == self.root() ==> {
                &&& disk.contains_key(path) == start.contains_key(path)
                &&& disk.contains_key(path) ==> disk[path] == start[path]
            }
    }
}

/// Different places below a root stay different with the root in front.
proof fn lemma_below_root(root: Parts, a: Parts, b: Parts)
    ensures
        root + a == root + b <==> a == b,
        root.is_prefix_of(root + a),
        (root + a).skip(root.len() as int) == a,
{
    assert((root + a).skip(root.len() as int) =~= a);
    assert((root + b).skip(root.len() as int) =~= b);
    assert((root + a).subrange(0, root.len() as int) =~= root);
}

/// What leads to a place below a root leads to the root, is the root, or lies below it.
proof fn lemma_leads_below_root(root: Parts, path: Parts, above: Parts)
    requires
        leads_to(above, root + path),
    ensures
        leads_to(above, root) || above == root || (above == root + above.skip(root.len() as int)
            && leads_to(above.skip(root.len() as int), path)),
{
    let full = root + path;
    if above.len() < root.len() {
        assert(above =~= root.take(above.len() as int)) by {
            assert(above =~= full.take(above.len() as int));
        }
    } else if above.len() == root.len() {
        assert(above =~= root) by {
            assert(above =~= full.take(above.len() as int));
        }
    } else {
        let rest = above.skip(root.len() as int);
        assert(above =~= full.take(above.len() as int));
        assert(above =~= root + rest);
        assert(rest =~= path.take(rest.len() as int));
    }
}

/// Below a root, what leads where is the same with and without the root.
proof fn lemma_leads_with_root(root: Parts, above: Parts, path: Parts)
    requires
        above.len() > 0,
    ensures
        leads_to(root + above, root + path) <==> leads_to(above, path),
        (root + above).is_prefix_of(root + path) <==> above.is_prefix_of(path),
{
    if above.is_prefix_of(path) {
        assert((root + above) =~= (root + path).subrange(0, (root + above).len() as int)) by {
            assert(above =~= path.subrange(0, above.len() as int));
        }
    }
    if (root + above).is_prefix_of(root + path) {
        let n = (root + above).len() as int;
        assert((root + above) =~= (root + path).subrange(0, n));
        assert forall|k: int| 0 <= k < above.len() implies above[k] == path[k] by {
            assert((root + above)[root.len() + k] == (root + path)[root.len() + k]);
        }
        assert(above =~= path.subrange(0, above.len() as int));
    }
}

/// Nothing outside of a root, and not the root itself, lies at or below a place below it.
proof fn lemma_not_below(root: Parts, path: Parts, other: Parts)
    requires
        path.len() > 0,
        !root.is_prefix_of(other) || other == root,
    ensures
        !(root + path).is_prefix_of(other),
        root + path != other,
{
    let full = root + path;
    lemma_below_root(root, path, path);
    if full.is_prefix_of(other) {
        assert(full =~= other.subrange(0, full.len() as int));
        assert(root =~= other.subrange(0, root.len() as int)) by {
            assert forall|k: int| 0 <= k < root.len() implies root[k] == other[k] by {
                assert(full[k] == other[k]);
            }
        }
        assert(root.is_prefix_of(other));
        assert(other.len() >= full.len() > root.len());
    }
    if full == other {
        assert(full.is_prefix_of(other)) by {
            assert(full =~= other.subrange(0, full.len() as int));
        }
    }
}

/// The items of snapshots that stand at the same place have the same key.
proof fn lemma_same_place(
    a: SnapshotView,
    a_data: Seq<Seq<u8>>,
    i: int,
    b: SnapshotView,
    b_data: Seq<Seq<u8>>,
    j: int,
)
    requires
        is_snapshot(a, a_data),
        is_snapshot(b, b_data),
        0 <= i < a.len(),
        0 <= j < b.len(),
        place(a, i) == place(b, j),
    ensures
        a[i].0 == b[j].0,
        a == b ==> i == j,
{
    assert(crate::key::key_of(place(a, i)) == a[i].0);
    assert(crate::key::key_of(place(b, j)) == b[j].0);
    if a == b {
        assert(a[i].0 == a[j].0);
    }
}

/// Applying changes in two goes is applying them all.
proof fn lemma_applied_concat(
    disk: Disk,
    root: PathView,
    a: Seq<ChangeView>,
    b: Seq<ChangeView>,
)
    ensures
        applied(disk, root, a + b) == match applied(disk, root, a) {
            None => None,
            Some(between) => applied(between, root, b),
        },
    decreases b.len(),
{
    if b.len() == 0 {
        assert(a + b =~= a);
    } else {
        assert((a + b).drop_last() =~= a + b.drop_last());
        lemma_applied_concat(disk, root, a, b.drop_last());
    }
}

/// The text of the place of an item below a root.
proof fn lemma_target(root: PathView, s: SnapshotView, data: Seq<Seq<u8>>, i: int)
    requires
        is_snapshot(s, data),
        0 <= i < s.len(),
        place(s, i).len() > 0,
        root.len() > 0,
    ensures
        ({
            let text = crate::key::spelled(s[i].0);
            let target = crate::snapshot::target_of(root, text);
            &&& text.len() > 0
            &&& crate::path::parsed(target) == crate::path::parsed(root) + place(s, i)
            &&& crate::path::is_plain(target)
            &&& !ends_in_dot(target)
            &&& makes_way(crate::path::parent_text(target), crate::path::parsed(target))
        }),
{
    let path = place(s, i);
    let text = crate::key::spelled(s[i].0);
    let target = crate::snapshot::target_of(root, text);
    assert(crate::path::is_plain(text));
    crate::path::lemma_parsed_some(text);
    crate::path::lemma_parsed_some(root);
    crate::path::lemma_parsed_absolute(text);
    crate::path::lemma_parsed_pushed(root, text);
    crate::path::lemma_parsed_is_clean(text);
    assert(target.len() >= 2);
    assert(target.last() == text.last());
    if text.len() == 1 {
        if text[0] == crate::path::DOT {
            assert(text =~= crate::path::dot_part());
            crate::path::lemma_parsed_dot();
        }
    } else {
        crate::path::lemma_trimmed_len(text.drop_last());
        assert(target[target.len() - 2] == text[text.len() - 2]);
    }
    let last = path[path.len() - 1];
    assert(crate::path::parsed(target).last() == last);
    if last == crate::path::root_part() {
        assert(last[0] == crate::path::SEPARATOR);
        assert(last.contains(last[0]));
        assert(path.len() == 1);
    }
    crate::path::lemma_parsed_parent(target);
}

/// The root stays where it is as long as nothing outside of it changes.
proof fn lemma_root_exists(x: Exchange, start: Disk, disk: Disk)
    requires
        x.starts_from(start),
        x.is_same_outside(start, disk),
    ensures
        root_exists(disk, x.base),
{
    assert(disk.contains_key(x.root()) == start.contains_key(x.root()));
    assert forall|above: Parts| #[trigger] leads_to(above, x.root()) implies !is_file(
        disk,
        above,
    ) by {
        assert(is_dir(start, above));
        assert(disk.contains_key(above) == start.contains_key(above)) by {
            if x.root().is_prefix_of(above) {
                assert(false);
            }
        }
    }
}

/// Nothing stands in the way to a place if no file does below the root.
proof fn lemma_not_blocked(x: Exchange, start: Disk, disk: Disk, path: Parts)
    requires
        x.starts_from(start),
        x.strays_fit(start),
        x.is_same_outside(start, disk),
        forall|above: Parts| #[trigger]
            leads_to(above, path) ==> !is_file(disk, x.root() + above),
    ensures
        !is_blocked(disk, x.root() + path),
{
    assert forall|above: Parts| #[trigger] leads_to(above, x.root() + path) implies !is_file(
        disk,
        above,
    ) by {
        lemma_leads_below_root(x.root(), path, above);
        if leads_to(above, x.root()) {
            assert(is_dir(start, above));
            assert(disk.contains_key(above) == start.contains_key(above)) by {
                if x.root().is_prefix_of(above) {
                    assert(false);
                }
            }
        } else if above == x.root() {
            assert(is_dir(start, above));
            assert(disk.contains_key(above) == start.contains_key(above));
        } else {
            let rest = above.skip(x.root().len() as int);
            assert(leads_to(rest, path));
        }
    }
}

/// No file is in the way to the next item of the new tree, if it is a file.
proof fn lemma_way_is_free(
    x: Exchange,
    start: Disk,
    disk: Disk,
    n: int,
    open: Option<Parts>,
    above: Parts,
)
    requires
        x.starts_from(start),
        x.strays_fit(start),
        x.replaced_files_come_first(),
        0 <= n < x.new.len(),
        x.new[n].1 is File,
        open == None::<Parts> || open == Some(place(x.new, n)),
        x.is_midway(start, disk, n, open),
        leads_to(above, place(x.new, n)),
    ensures
        !is_file(disk, x.root() + above),
{
    assert(lists_dir(x.new, above));
    let d = choose|d: int| #[trigger] stands_at(x.new, d, above) && x.new[d].1 is Dir;
    if is_file(disk, x.root() + above) {
        assert(above != place(x.new, n));
        if x.is_filed(n, above) {
            let j = choose|j: int|
                #[trigger] stands_at(x.new, j, above) && j < n && x.new[j].1 is File;
            lemma_same_place(x.new, x.new_data, d, x.new, x.new_data, j);
        } else {
            assert(x.lists_old_file(above));
            let i = choose|i: int| #[trigger] stands_at(x.old, i, above) && x.old[i].1 is File;
            assert(x.old[i].1 is File && x.new[d].1 is Dir && x.new[n].1 is File);
            assert(d < n);
            assert(stands_at(x.new, d, above));
            assert(x.is_handled(n, above));
        }
    }
}

/// What a file system holds except at one place is kept by a change at that place.
proof fn lemma_changed_at(
    x: Exchange,
    start: Disk,
    disk: Disk,
    after: Disk,
    n: int,
    path: Parts,
)
    requires
        x.is_midway(start, disk, n, Some(path)),
        0 <= n <= x.new.len(),
        path.len() > 0,
        lists(x.new, path),
        forall|p: Parts|
            #![trigger after.contains_key(p)]
            p != x.root() + path ==> after.contains_key(p) == disk.contains_key(p) && (
            after.contains_key(p) ==> after[p] == disk[p]),
    ensures
        x.is_midway(start, after, n, Some(path)),
{
    assert forall|p: Parts| #![trigger x.root() + p] p != path implies x.root() + p != x.root()
        + path by {
        lemma_below_root(x.root(), p, path);
    }
    assert forall|j: int|
        #![trigger x.new[j]]
        0 <= j < n && x.new[j].1 is File && Some(path) != Some(place(x.new, j)) implies {
        &&& after.contains_key(x.root() + place(x.new, j))
        &&& after[x.root() + place(x.new, j)] == Node::File(x.new_data[j])
    } by {
        let p = place(x.new, j);
        assert(p != path);
        assert(x.root() + p != x.root() + path);
        assert(after.contains_key(x.root() + p) == disk.contains_key(x.root() + p));
    }
    assert forall|i: int|
        #![trigger x.old[i]]
        0 <= i < x.old.len() && x.old[i].1 is File && Some(path) != Some(place(x.old, i))
            && !x.is_handled(n, place(x.old, i)) implies {
        &&& after.contains_key(x.root() + place(x.old, i))
        &&& after[x.root() + place(x.old, i)] == Node::File(x.old_data[i])
    } by {
        let p = place(x.old, i);
        assert(x.root() + p != x.root() + path);
        assert(after.contains_key(x.root() + p) == disk.contains_key(x.root() + p));
    }
    assert forall|i: int|
        #![trigger x.old[i]]
        0 <= i < x.old.len() && x.old[i].1 is Dir && Some(path) != Some(place(x.old, i)) && place(
            x.old,
            i,
        ).len() > 0 && !x.is_filed(n, place(x.old, i)) implies is_dir(
        after,
        x.root() + place(x.old, i),
    ) by {
        let p = place(x.old, i);
        assert(x.root() + p != x.root() + path);
        assert(after.contains_key(x.root() + p) == disk.contains_key(x.root() + p));
    }
    assert forall|p: Parts|
        #![trigger x.root() + p]
        p.len() > 0 && Some(path) != Some(p) implies after.contains_key(x.root() + p)
        == disk.contains_key(x.root() + p) && (after.contains_key(x.root() + p) ==> after[x.root() + p]
        == disk[x.root() + p]) by {
        assert(x.root() + p != x.root() + path);
    }
    assert(x.keeps_asides(start, after));
    assert forall|p: Parts|
        #![trigger after.contains_key(p)]
        !x.root().is_prefix_of(p) || p == x.root() implies {
        &&& after.contains_key(p) == start.contains_key(p)
        &&& after.contains_key(p) ==> after[p] == start[p]
    } by {
        lemma_not_below(x.root(), path, p);
        assert(after.contains_key(p) == disk.contains_key(p));
    }
}

/// A new file and the directories on the way to it keep what holds elsewhere.
proof fn lemma_filled_at(x: Exchange, start: Disk, disk: Disk, n: int, bytes: Seq<u8>)
    requires
        x.starts_from(start),
        x.strays_fit(start),
        x.replaced_files_come_first(),
        0 <= n < x.new.len(),
        x.new[n].1 is File,
        x.is_midway(start, disk, n, Some(place(x.new, n))),
    ensures
        x.is_midway(
            start,
            with_file(disk, x.root() + place(x.new, n), bytes),
            n,
            Some(place(x.new, n)),
        ),
{
    let path = place(x.new, n);
    let full = x.root() + path;
    let after = with_file(disk, full, bytes);
    assert(path.len() > 0);
    assert forall|p: Parts| #![trigger x.root() + p] p != path && p.len() > 0 implies {
        &&& x.root() + p != full
        &&& leads_to(x.root() + p, full) <==> leads_to(p, path)
    } by {
        lemma_below_root(x.root(), p, path);
        lemma_leads_with_root(x.root(), p, path);
    }
    assert forall|p: Parts| #[trigger] leads_to(p, path) implies !is_file(disk, x.root() + p)
        && lists_dir(x.new, p) by {
        lemma_way_is_free(x, start, disk, n, Some(path), p);
    }
    assert forall|j: int|
        #![trigger x.new[j]]
        0 <= j < n && x.new[j].1 is File && Some(path) != Some(place(x.new, j)) implies {
        &&& after.contains_key(x.root() + place(x.new, j))
        &&& after[x.root() + place(x.new, j)] == Node::File(x.new_data[j])
    } by {
        let p = place(x.new, j);
        assert(p.len() > 0);
        assert(x.root() + p != full);
        assert(!leads_to(p, path));
    }
    assert forall|i: int|
        #![trigger x.old[i]]
        0 <= i < x.old.len() && x.old[i].1 is File && Some(path) != Some(place(x.old, i))
            && !x.is_handled(n, place(x.old, i)) implies {
        &&& after.contains_key(x.root() + place(x.old, i))
        &&& after[x.root() + place(x.old, i)] == Node::File(x.old_data[i])
    } by {
        let p = place(x.old, i);
        assert(p.len() > 0);
        assert(x.root() + p != full);
        assert(!leads_to(p, path));
    }
    assert forall|i: int|
        #![trigger x.old[i]]
        0 <= i < x.old.len() && x.old[i].1 is Dir && Some(path) != Some(place(x.old, i)) && place(
            x.old,
            i,
        ).len() > 0 && !x.is_filed(n, place(x.old, i)) implies is_dir(
        after,
        x.root() + place(x.old, i),
    ) by {
        let p = place(x.old, i);
        assert(x.root() + p != full);
    }
    assert forall|p: Parts|
        #![trigger x.root() + p]
        p.len() > 0 && Some(path) != Some(p) && !x.is_aside(start, p) && is_file(
            after,
            x.root() + p,
        ) implies x.is_filed(n, p) || (x.may_be_file(start, p) && !x.is_handled(n, p)) by {
        assert(x.root() + p != full);
        assert(is_file(disk, x.root() + p));
    }
    assert forall|p: Parts|
        #![trigger x.root() + p]
        p.len() > 0 && Some(path) != Some(p) && !x.is_aside(start, p) && is_dir(
            after,
            x.root() + p,
        ) implies lists_dir(x.new, p) || (lists_dir(x.old, p) && !x.is_filed(n, p)) by {
        assert(x.root() + p != full);
        if !leads_to(p, path) {
            assert(is_dir(disk, x.root() + p));
        }
    }
    assert forall|p: Parts|
        #![trigger x.root() + p]
        p.len() > 0 && Some(path) != Some(p) && lists_dir(x.new, p) && is_dir(
            start,
            x.root() + p,
        ) implies is_dir(after, x.root() + p) by {
        assert(x.root() + p != full);
        assert(is_dir(disk, x.root() + p));
    }
    assert forall|p: Parts| #![trigger x.is_aside(start, p)] x.is_aside(start, p) implies {
        &&& !x.is_doomed(p) ==> after.contains_key(x.root() + p)
        &&& after.contains_key(x.root() + p) ==> after[x.root() + p] == start[x.root() + p]
    } by {
        assert(stands_at(x.new, n, path));
        assert(p != path);
        assert(x.root() + p != full);
        if leads_to(p, path) {
            let d = choose|d: int| #[trigger] stands_at(x.new, d, p) && x.new[d].1 is Dir;
            assert(lists(x.new, p));
        }
    }
    assert forall|p: Parts|
        #![trigger after.contains_key(p)]
        !x.root().is_prefix_of(p) || p == x.root() implies {
        &&& after.contains_key(p) == start.contains_key(p)
        &&& after.contains_key(p) ==> after[p] == start[p]
    } by {
        lemma_not_below(x.root(), path, p);
        assert(disk.contains_key(p) == start.contains_key(p));
        if leads_to(p, full) {
            lemma_leads_below_root(x.root(), path, p);
            if p != x.root() && !leads_to(p, x.root()) {
                let rest = p.skip(x.root().len() as int);
                lemma_below_root(x.root(), rest, rest);
            }
            assert(is_dir(start, p));
        }
    }
}

/// The next item of the new tree is dealt with once its place is as it should be.
proof fn lemma_close(x: Exchange, start: Disk, disk: Disk, n: int)
    requires
        x.starts_from(start),
        x.strays_fit(start),
        0 <= n < x.new.len(),
        x.is_midway(start, disk, n, Some(place(x.new, n))),
        x.new[n].1 is File ==> disk.contains_key(x.root() + place(x.new, n)) && disk[x.root() + place(
            x.new,
            n,
        )] == Node::File(x.new_data[n]),
        x.new[n].1 is Dir && place(x.new, n).len() > 0 ==> {
            &&& !is_file(disk, x.root() + place(x.new, n))
            &&& is_dir(start, x.root() + place(x.new, n)) ==> is_dir(
                disk,
                x.root() + place(x.new, n),
            )
        },
    ensures
        x.is_midway(start, disk, n + 1, None),
{
    let path = place(x.new, n);
    assert(stands_at(x.new, n, path));
    assert forall|p: Parts| x.is_handled(n + 1, p) implies x.is_handled(n, p) || p == path by {
        let j = choose|j: int| #[trigger] stands_at(x.new, j, p) && j < n + 1;
        if j < n {
            assert(stands_at(x.new, j, p));
        }
    }
    assert forall|p: Parts| x.is_handled(n, p) implies x.is_handled(n + 1, p) by {
        let j = choose|j: int| #[trigger] stands_at(x.new, j, p) && j < n;
        assert(stands_at(x.new, j, p));
    }
    assert(x.is_handled(n + 1, path));
    assert forall|p: Parts| x.is_filed(n + 1, p) implies x.is_filed(n, p) || p == path by {
        let j = choose|j: int|
            #[trigger] stands_at(x.new, j, p) && j < n + 1 && x.new[j].1 is File;
        if j < n {
            assert(stands_at(x.new, j, p));
        }
    }
    assert forall|p: Parts| x.is_filed(n, p) implies x.is_filed(n + 1, p) by {
        let j = choose|j: int| #[trigger] stands_at(x.new, j, p) && j < n && x.new[j].1 is File;
        assert(stands_at(x.new, j, p));
    }
    if x.new[n].1 is File {
        assert(x.is_filed(n + 1, path));
    } else {
        assert(lists_dir(x.new, path));
    }
    assert forall|i: int|
        #![trigger x.old[i]]
        0 <= i < x.old.len() && x.old[i].1 is Dir && place(x.old, i).len() > 0 && !x.is_filed(
            n + 1,
            place(x.old, i),
        ) implies is_dir(disk, x.root() + place(x.old, i)) by {
        let p = place(x.old, i);
        if p == path {
            assert(stands_at(x.old, i, path));
            assert(lists_dir(x.old, path));
        }
    }
}

/// Applying a single change.
proof fn lemma_applied_one(disk: Disk, root: PathView, change: ChangeView)
    requires
        root_exists(disk, root),
    ensures
        applied(disk, root, seq![change]) == carried_out(
            disk,
            crate::snapshot::plan_of(change, root),
        ),
{
    assert(seq![change].drop_last() =~= Seq::<ChangeView>::empty());
    assert(applied(disk, root, Seq::<ChangeView>::empty()) == Some(disk));
}

/// What the old tree has under the key of an item of the new tree is what it has at its place.
proof fn lemma_counterpart(x: Exchange, start: Disk, n: int)
    requires
        x.starts_from(start),
        x.strays_fit(start),
        0 <= n < x.new.len(),
    ensures
        match crate::listing::entry_for(x.old, x.new[n].0) {
            Some(entry) => {
                let i = crate::listing::position(x.old, x.new[n].0);
                &&& stands_at(x.old, i, place(x.new, n))
                &&& x.old[i].0 == x.new[n].0
                &&& x.old[i].1 == entry
                &&& lists_dir(x.old, place(x.new, n)) <==> entry is Dir
                &&& x.lists_old_file(place(x.new, n)) <==> entry is File
            },
            None => !lists(x.old, place(x.new, n)),
        },
{
    let key = x.new[n].0;
    let path = place(x.new, n);
    if crate::listing::has_key(x.old, key) {
        let i = crate::listing::position(x.old, key);
        assert(crate::listing::is_at(x.old, key, i));
        assert(stands_at(x.old, i, path));
        assert forall|k: int| stands_at(x.old, k, path) implies k == i by {
            lemma_same_place(x.old, x.old_data, k, x.old, x.old_data, i);
        }
    } else if lists(x.old, path) {
        let k = choose|k: int| #[trigger] stands_at(x.old, k, path);
        lemma_same_place(x.old, x.old_data, k, x.new, x.new_data, n);
        assert(crate::listing::is_at(x.old, key, k));
    }
}

/// The place of the next item can be left open.
proof fn lemma_reopen(x: Exchange, start: Disk, disk: Disk, n: int, path: Parts)
    requires
        x.is_midway(start, disk, n, None),
    ensures
        x.is_midway(start, disk, n, Some(path)),
{
}

/// Creating the file that is next deals with it.
proof fn lemma_create(x: Exchange, start: Disk, disk: Disk, n: int)
    requires
        x.starts_from(start),
        x.strays_fit(start),
        x.replaced_files_come_first(),
        0 <= n < x.new.len(),
        x.new[n].1 is File,
        x.is_midway(start, disk, n, Some(place(x.new, n))),
        !is_dir(disk, x.root() + place(x.new, n)),
    ensures
        ({
            let change = ChangeView::Create { path: crate::key::spelled(x.new[n].0), bytes: x.new_data[n] };
            let after = with_file(disk, x.root() + place(x.new, n), x.new_data[n]);
            &&& carried_out(disk, crate::snapshot::plan_of(change, x.base)) == Some(after)
            &&& x.is_midway(start, after, n + 1, None)
        }),
{
    let path = place(x.new, n);
    assert(path.len() > 0);
    lemma_target(x.base, x.new, x.new_data, n);
    assert forall|above: Parts| #[trigger] leads_to(above, path) implies !is_file(
        disk,
        x.root() + above,
    ) by {
        lemma_way_is_free(x, start, disk, n, Some(path), above);
    }
    lemma_not_blocked(x, start, disk, path);
    lemma_filled_at(x, start, disk, n, x.new_data[n]);
    lemma_close(x, start, with_file(disk, x.root() + path, x.new_data[n]), n);
}

/// The next item of the new tree is new, and a file.
proof fn lemma_arrival_new(x: Exchange, start: Disk, disk: Disk, n: int)
    requires
        x.starts_from(start),
        x.strays_fit(start),
        x.replaced_files_come_first(),
        0 <= n < x.new.len(),
        x.new[n].1 is File,
        crate::listing::entry_for(x.old, x.new[n].0) is None,
        x.is_midway(start, disk, n, None),
    ensures
        ({
            let change = ChangeView::Create { path: crate::key::spelled(x.new[n].0), bytes: x.new_data[n] };
            &&& applied(disk, x.base, seq![change]) matches Some(after)
            &&& x.is_midway(start, after, n + 1, None)
        }),
{
    let path = place(x.new, n);
    let text = crate::key::spelled(x.new[n].0);
    let change = ChangeView::Create { path: text, bytes: x.new_data[n] };
    assert(path.len() > 0);
    lemma_counterpart(x, start, n);
    assert(stands_at(x.new, n, path));
    assert(lists(x.new, path));
    if is_dir(disk, x.root() + path) {
        lemma_is_no_dir(x, n);
        assert(lists_dir(x.old, path));
        let i = choose|i: int| #[trigger] stands_at(x.old, i, path) && x.old[i].1 is Dir;
        assert(lists(x.old, path));
    }
    lemma_reopen(x, start, disk, n, path);
    lemma_create(x, start, disk, n);
    lemma_root_exists(x, start, disk);
    lemma_applied_one(disk, x.base, change);
}

/// A file of the new tree is no directory of it.
proof fn lemma_is_no_dir(x: Exchange, n: int)
    requires
        is_snapshot(x.new, x.new_data),
        0 <= n < x.new.len(),
        x.new[n].1 is File,
    ensures
        !lists_dir(x.new, place(x.new, n)),
{
    if lists_dir(x.new, place(x.new, n)) {
        let d = choose|d: int|
            #[trigger] stands_at(x.new, d, place(x.new, n)) && x.new[d].1 is Dir;
        lemma_same_place(x.new, x.new_data, d, x.new, x.new_data, n);
    }
}

/// The next item of the new tree is a file in both trees.
proof fn lemma_arrival_file(x: Exchange, start: Disk, disk: Disk, n: int)
    requires
        x.starts_from(start),
        x.strays_fit(start),
        x.hashes_are_faithful(),
        0 <= n < x.new.len(),
        x.new[n].1 is File,
        crate::listing::entry_for(x.old, x.new[n].0) matches Some(e) && e is File,
        x.is_midway(start, disk, n, None),
    ensures
        ({
            let old_chunks = crate::listing::entry_for(x.old, x.new[n].0)->0->chunks;
            let chunks = x.new[n].1->chunks;
            let instructs = crate::diff::instructs_for(old_chunks, chunks, x.new_data[n]);
            let change = ChangeView::Update { path: crate::key::spelled(x.new[n].0), instructs };
            if crate::diff::same_hashes(old_chunks, chunks) {
                x.is_midway(start, disk, n + 1, None)
            } else {
                &&& applied(disk, x.base, seq![change]) matches Some(after)
                &&& x.is_midway(start, after, n + 1, None)
            }
        }),
{
    let path = place(x.new, n);
    let full = x.root() + path;
    lemma_counterpart(x, start, n);
    let i = crate::listing::position(x.old, x.new[n].0);
    assert(path.len() > 0);
    assert(stands_at(x.new, n, path));
    assert(lists(x.new, path));
    assert(!x.is_handled(n, path)) by {
        if x.is_handled(n, path) {
            let j = choose|j: int| #[trigger] stands_at(x.new, j, path) && j < n;
            lemma_same_place(x.new, x.new_data, j, x.new, x.new_data, n);
        }
    }
    assert(x.old[i].1 is File);
    assert(disk.contains_key(full) && disk[full] == Node::File(x.old_data[i]));
    let (a, b) = (x.old[i].1->chunks, x.new[n].1->chunks);
    assert(crate::chunker::is_chunking(a, x.old_data[i]));
    assert(crate::chunker::is_chunking(b, x.new_data[n]));
    lemma_reopen(x, start, disk, n, path);
    if crate::diff::same_hashes(a, b) {
        crate::diff::lemma_same_hashes_same_bytes(a, x.old_data[i], b, x.new_data[n]);
        lemma_close(x, start, disk, n);
    } else {
        crate::diff::lemma_patch_rebuilds(a, x.old_data[i], b, x.new_data[n]);
        let instructs = crate::diff::instructs_for(a, b, x.new_data[n]);
        let text = crate::key::spelled(x.new[n].0);
        let change = ChangeView::Update { path: text, instructs };
        let after = disk.insert(full, Node::File(x.new_data[n]));
        lemma_target(x.base, x.new, x.new_data, n);
        lemma_root_exists(x, start, disk);
        lemma_applied_one(disk, x.base, change);
        lemma_changed_at(x, start, disk, after, n, path);
        lemma_close(x, start, after, n);
    }
}

/// Losing what neither tree lists, in a directory that the new tree lacks, keeps the rest.
proof fn lemma_lost_asides(
    x: Exchange,
    start: Disk,
    disk: Disk,
    after: Disk,
    n: int,
    open: Option<Parts>,
    path: Parts,
)
    requires
        x.is_midway(start, disk, n, open),
        x.starts_from(start),
        0 <= n <= x.new.len(),
        path.len() > 0,
        lists_dir(x.old, path),
        !lists_dir(x.new, path),
        forall|p: Parts|
            #![trigger after.contains_key(p)]
            after.contains_key(p) ==> disk.contains_key(p) && after[p] == disk[p],
        forall|p: Parts|
            #![trigger after.contains_key(p)]
            disk.contains_key(p) && !after.contains_key(p) ==> {
                let rest = p.skip(x.root().len() as int);
                &&& p == x.root() + rest
                &&& leads_to(path, rest)
                &&& x.is_aside(start, rest)
            },
    ensures
        x.is_midway(start, after, n, open),
{
    assert forall|p: Parts|
        #![trigger x.root() + p]
        p.len() > 0 && !x.is_aside(start, p) implies after.contains_key(x.root() + p)
        == disk.contains_key(x.root() + p) && (after.contains_key(x.root() + p) ==> after[x.root() + p]
        == disk[x.root() + p]) by {
        lemma_below_root(x.root(), p, p);
        assert(after.contains_key(x.root() + p) ==> disk.contains_key(x.root() + p));
    }
    assert forall|j: int| #![trigger x.new[j]] 0 <= j < x.new.len() implies !x.is_aside(
        start,
        place(x.new, j),
    ) by {
        assert(stands_at(x.new, j, place(x.new, j)));
    }
    assert forall|i: int| #![trigger x.old[i]] 0 <= i < x.old.len() implies !x.is_aside(
        start,
        place(x.old, i),
    ) by {
        assert(stands_at(x.old, i, place(x.old, i)));
    }
    assert forall|p: Parts| lists_dir(x.new, p) implies !x.is_aside(start, p) by {
        let d = choose|d: int| #[trigger] stands_at(x.new, d, p) && x.new[d].1 is Dir;
        assert(lists(x.new, p));
    }
    assert forall|p: Parts| #![trigger x.is_aside(start, p)] x.is_aside(start, p) implies {
        &&& !x.is_doomed(p) ==> after.contains_key(x.root() + p)
        &&& after.contains_key(x.root() + p) ==> after[x.root() + p] == start[x.root() + p]
    } by {
        lemma_below_root(x.root(), p, p);
        if disk.contains_key(x.root() + p) && !after.contains_key(x.root() + p) {
            assert(leads_to(path, p));
            assert(x.is_doomed(p));
        }
    }
    assert forall|p: Parts|
        #![trigger after.contains_key(p)]
        !x.root().is_prefix_of(p) || p == x.root() implies {
        &&& after.contains_key(p) == start.contains_key(p)
        &&& after.contains_key(p) ==> after[p] == start[p]
    } by {
        if disk.contains_key(p) && !after.contains_key(p) {
            let rest = p.skip(x.root().len() as int);
            lemma_not_below(x.root(), rest, p);
        }
        assert(disk.contains_key(p) == start.contains_key(p));
    }
}

/// The next item of the new tree is a file where the old tree has a directory.
#[verifier::rlimit(50)]
#[verifier::spinoff_prover]
proof fn lemma_arrival_replacing_dir(x: Exchange, start: Disk, disk: Disk, n: int)
    requires
        x.starts_from(start),
        x.strays_fit(start),
        x.replaced_dirs_are_empty(),
        x.replaced_files_come_first(),
        0 <= n < x.new.len(),
        x.new[n].1 is File,
        crate::listing::entry_for(x.old, x.new[n].0) matches Some(e) && e is Dir,
        x.is_midway(start, disk, n, None),
    ensures
        ({
            let delete = ChangeView::Delete { path: crate::key::spelled(x.new[n].0) };
            let create = ChangeView::Create { path: crate::key::spelled(x.new[n].0), bytes: x.new_data[n] };
            &&& applied(disk, x.base, seq![delete, create]) matches Some(after)
            &&& x.is_midway(start, after, n + 1, None)
        }),
{
    let path = place(x.new, n);
    let full = x.root() + path;
    let text = crate::key::spelled(x.new[n].0);
    let delete = ChangeView::Delete { path: text };
    let create = ChangeView::Create { path: text, bytes: x.new_data[n] };
    assert(path.len() > 0);
    lemma_counterpart(x, start, n);
    let i = crate::listing::position(x.old, x.new[n].0);
    assert(x.old[i].1 is Dir);
    assert(!x.is_filed(n, path)) by {
        if x.is_filed(n, path) {
            let j = choose|j: int|
                #[trigger] stands_at(x.new, j, path) && j < n && x.new[j].1 is File;
            lemma_same_place(x.new, x.new_data, j, x.new, x.new_data, n);
        }
    }
    assert(is_dir(disk, full));
    lemma_target(x.base, x.new, x.new_data, n);
    assert forall|above: Parts| #[trigger] leads_to(above, path) implies !is_file(
        disk,
        x.root() + above,
    ) by {
        lemma_way_is_free(x, start, disk, n, None, above);
    }
    lemma_not_blocked(x, start, disk, path);
    lemma_is_no_dir(x, n);
    assert(stands_at(x.new, n, path));
    assert(lists(x.new, path));
    assert forall|p: Parts| #[trigger]
        leads_to(path, p) && disk.contains_key(x.root() + p) implies x.is_aside(start, p) by {
        assert(!lists(x.new, p)) by {
            if lists(x.new, p) {
                let j = choose|j: int| #[trigger] stands_at(x.new, j, p);
                assert(leads_to(path, place(x.new, j)));
                assert(lists_dir(x.new, path));
            }
        }
        assert(!lists(x.old, p)) by {
            if lists(x.old, p) {
                let k = choose|k: int| #[trigger] stands_at(x.old, k, p);
                assert(x.old[i].1 is Dir && x.new[n].1 is File);
                assert(leads_to(place(x.old, i), place(x.old, k)));
            }
        }
        if !x.is_aside(start, p) {
            if is_file(disk, x.root() + p) {
                if x.is_filed(n, p) {
                    let j = choose|j: int|
                        #[trigger] stands_at(x.new, j, p) && j < n && x.new[j].1 is File;
                    assert(lists(x.new, p));
                } else if x.lists_old_file(p) {
                    let k = choose|k: int|
                        #[trigger] stands_at(x.old, k, p) && x.old[k].1 is File;
                    assert(lists(x.old, p));
                }
            } else {
                assert(is_dir(disk, x.root() + p));
                if lists_dir(x.new, p) {
                    let j = choose|j: int| #[trigger] stands_at(x.new, j, p) && x.new[j].1 is Dir;
                    assert(lists(x.new, p));
                } else {
                    let k = choose|k: int| #[trigger] stands_at(x.old, k, p) && x.old[k].1 is Dir;
                    assert(lists(x.old, p));
                }
            }
        }
    }
    let between = without_tree(disk, full);
    let emptied = if disk.contains_key(full) {
        between.insert(full, disk[full])
    } else {
        between
    };
    assert(full.is_prefix_of(full)) by {
        assert(full =~= full.subrange(0, full.len() as int));
    }
    assert forall|p: Parts|
        #![trigger emptied.contains_key(p)]
        disk.contains_key(p) && !emptied.contains_key(p) implies {
        let rest = p.skip(x.root().len() as int);
        &&& p == x.root() + rest
        &&& leads_to(path, rest)
        &&& x.is_aside(start, rest)
    } by {
        let rest = p.skip(x.root().len() as int);
        assert(full.is_prefix_of(p) && p != full);
        assert(full =~= p.subrange(0, full.len() as int));
        assert(p =~= x.root() + rest) by {
            assert forall|m: int| 0 <= m < x.root().len() implies x.root()[m] == p[m] by {
                assert(full[m] == p[m]);
            }
        }
        lemma_leads_with_root(x.root(), path, rest);
        if rest.len() == path.len() {
            assert(p =~= full);
        }
        assert(leads_to(path, rest));
    }
    lemma_reopen(x, start, disk, n, path);
    lemma_lost_asides(x, start, disk, emptied, n, Some(path), path);
    lemma_changed_at(x, start, emptied, between, n, path);
    lemma_create(x, start, between, n);
    lemma_root_exists(x, start, disk);
    lemma_applied_one(disk, x.base, delete);
    lemma_root_exists(x, start, between);
    lemma_applied_one(between, x.base, create);
    lemma_applied_concat(disk, x.base, seq![delete], seq![create]);
    assert(seq![delete] + seq![create] =~= seq![delete, create]);
}

/// The next item of the new tree is a directory where the old tree has a file.
proof fn lemma_arrival_replacing_file(x: Exchange, start: Disk, disk: Disk, n: int)
    requires
        x.starts_from(start),
        x.strays_fit(start),
        0 <= n < x.new.len(),
        x.new[n].1 is Dir,
        crate::listing::entry_for(x.old, x.new[n].0) matches Some(e) && e is File,
        x.is_midway(start, disk, n, None),
    ensures
        ({
            let delete = ChangeView::Delete { path: crate::key::spelled(x.new[n].0) };
            &&& applied(disk, x.base, seq![delete]) matches Some(after)
            &&& x.is_midway(start, after, n + 1, None)
        }),
{
    let path = place(x.new, n);
    let full = x.root() + path;
    let text = crate::key::spelled(x.new[n].0);
    let delete = ChangeView::Delete { path: text };
    lemma_counterpart(x, start, n);
    let i = crate::listing::position(x.old, x.new[n].0);
    assert(x.old[i].1 is File);
    assert(stands_at(x.new, n, path));
    assert(lists(x.new, path));
    assert(place(x.old, i).len() > 0);
    assert(!x.is_handled(n, path)) by {
        if x.is_handled(n, path) {
            let j = choose|j: int| #[trigger] stands_at(x.new, j, path) && j < n;
            lemma_same_place(x.new, x.new_data, j, x.new, x.new_data, n);
        }
    }
    assert(is_file(disk, full));
    lemma_target(x.base, x.new, x.new_data, n);
    assert forall|above: Parts| #[trigger] leads_to(above, path) implies !is_file(
        disk,
        x.root() + above,
    ) by {
        if is_file(disk, x.root() + above) {
            assert(leads_to(above, place(x.new, n)));
            assert(lists_dir(x.new, above));
            assert(leads_to(above, place(x.old, i)));
            assert(lists_dir(x.old, above));
            let d = choose|d: int| #[trigger] stands_at(x.new, d, above) && x.new[d].1 is Dir;
            let e = choose|e: int| #[trigger] stands_at(x.old, e, above) && x.old[e].1 is Dir;
            if x.is_filed(n, above) {
                let j = choose|j: int|
                    #[trigger] stands_at(x.new, j, above) && j < n && x.new[j].1 is File;
                lemma_same_place(x.new, x.new_data, d, x.new, x.new_data, j);
            } else {
                let k = choose|k: int| #[trigger] stands_at(x.old, k, above) && x.old[k].1 is File;
                lemma_same_place(x.old, x.old_data, e, x.old, x.old_data, k);
            }
        }
    }
    lemma_not_blocked(x, start, disk, path);
    let after = disk.remove(full);
    lemma_reopen(x, start, disk, n, path);
    lemma_changed_at(x, start, disk, after, n, path);
    lemma_close(x, start, after, n);
    lemma_root_exists(x, start, disk);
    lemma_applied_one(disk, x.base, delete);
}

/// The next item of the new tree is a directory where the old tree has no file.
proof fn lemma_arrival_dir(x: Exchange, start: Disk, disk: Disk, n: int)
    requires
        x.starts_from(start),
        x.strays_fit(start),
        0 <= n < x.new.len(),
        x.new[n].1 is Dir,
        match crate::listing::entry_for(x.old, x.new[n].0) {
            Some(e) => e is Dir,
            None => true,
        },
        x.is_midway(start, disk, n, None),
    ensures
        x.is_midway(start, disk, n + 1, None),
{
    let path = place(x.new, n);
    let full = x.root() + path;
    lemma_counterpart(x, start, n);
    assert(!x.is_filed(n, path)) by {
        if x.is_filed(n, path) {
            let j = choose|j: int|
                #[trigger] stands_at(x.new, j, path) && j < n && x.new[j].1 is File;
            lemma_same_place(x.new, x.new_data, j, x.new, x.new_data, n);
        }
    }
    assert(!x.lists_old_file(path)) by {
        if x.lists_old_file(path) {
            let k = choose|k: int| #[trigger] stands_at(x.old, k, path) && x.old[k].1 is File;
            assert(lists(x.old, path));
        }
    }
    assert(stands_at(x.new, n, path));
    assert(lists(x.new, path));
    assert(lists_dir(x.new, path));
    if path.len() > 0 {
        assert(!x.is_aside(start, path));
        assert(!is_file(disk, full)) by {
            if is_file(disk, full) {
                assert(is_file(start, full) && !lists(x.old, path));
                assert(start.contains_key(x.root() + path));
            }
        }
    }
    lemma_reopen(x, start, disk, n, path);
    if path.len() > 0 && lists_dir(x.old, path) {
        let k = choose|k: int| #[trigger] stands_at(x.old, k, path) && x.old[k].1 is Dir;
        assert(x.old[k].1 is Dir);
    }
    lemma_close(x, start, disk, n);
}

/// The next item of the new tree is dealt with by the changes for it.
proof fn lemma_arrival(x: Exchange, start: Disk, disk: Disk, n: int)
    requires
        x.starts_from(start),
        x.strays_fit(start),
        x.hashes_are_faithful(),
        x.replaced_dirs_are_empty(),
        x.replaced_files_come_first(),
        0 <= n < x.new.len(),
        x.is_midway(start, disk, n, None),
    ensures
        ({
            let changes = crate::diff::changes_for(
                crate::listing::entry_for(x.old, x.new[n].0),
                x.new[n].0,
                x.new[n].1,
                x.new_data[n],
            );
            &&& applied(disk, x.base, changes) matches Some(after)
            &&& x.is_midway(start, after, n + 1, None)
        }),
{
    let old = crate::listing::entry_for(x.old, x.new[n].0);
    assert(applied(disk, x.base, Seq::<ChangeView>::empty()) == Some(disk));
    match (old, x.new[n].1) {
        (None, PathEntryView::File { .. }) => {
            lemma_arrival_new(x, start, disk, n);
        },
        (Some(PathEntryView::File { .. }), PathEntryView::File { .. }) => {
            lemma_arrival_file(x, start, disk, n);
        },
        (Some(PathEntryView::Dir { .. }), PathEntryView::File { .. }) => {
            lemma_arrival_replacing_dir(x, start, disk, n);
        },
        (Some(PathEntryView::File { .. }), PathEntryView::Dir { .. }) => {
            lemma_arrival_replacing_file(x, start, disk, n);
        },
        _ => {
            lemma_arrival_dir(x, start, disk, n);
        },
    }
}

/// The items of the new tree are dealt with by the changes for them.
proof fn lemma_arrivals(x: Exchange, start: Disk, n: nat)
    requires
        x.starts_from(start),
        x.strays_fit(start),
        x.hashes_are_faithful(),
        x.replaced_dirs_are_empty(),
        x.replaced_files_come_first(),
        n <= x.new.len(),
    ensures
        applied(start, x.base, crate::diff::arrivals(x.old, x.new, x.new_data, n)) matches Some(
            after,
        ) && x.is_midway(start, after, n as int, None),
    decreases n,
{
    if n == 0 {
        assert forall|path: Parts|
            #![trigger x.root() + path]
            path.len() > 0 && start.contains_key(x.root() + path) && !x.is_aside(
                start,
                path,
            ) implies (if start[x.root() + path] is Dir {
            lists_dir(x.old, path) || lists_dir(x.new, path)
        } else {
            x.may_be_file(start, path)
        }) by {
            if lists(x.old, path) {
                let i = choose|i: int| #[trigger] stands_at(x.old, i, path);
                assert(x.old[i].1 is Dir <==> start[x.root() + path] is Dir);
            }
        }
        assert(x.is_midway(start, start, 0, None));
    } else {
        let before = (n - 1) as nat;
        lemma_arrivals(x, start, before);
        let earlier = crate::diff::arrivals(x.old, x.new, x.new_data, before);
        let between = applied(start, x.base, earlier)->0;
        lemma_arrival(x, start, between, before as int);
        lemma_applied_concat(
            start,
            x.base,
            earlier,
            crate::diff::changes_for(
                crate::listing::entry_for(x.old, x.new[n - 1].0),
                x.new[n - 1].0,
                x.new[n - 1].1,
                x.new_data[n - 1],
            ),
        );
    }
}

/// Once the items of the new tree are dealt with, what is left is to clear away.
proof fn lemma_turn_to_old(x: Exchange, start: Disk, disk: Disk)
    requires
        x.starts_from(start),
        x.strays_fit(start),
        x.is_midway(start, disk, x.new.len() as int, None),
    ensures
        x.is_clearing(start, disk, 0),
{
    let n = x.new.len() as int;
    assert forall|path: Parts| lists(x.new, path) implies x.is_handled(n, path) by {
        let j = choose|j: int| #[trigger] stands_at(x.new, j, path);
        assert(stands_at(x.new, j, path));
    }
    assert forall|path: Parts|
        #![trigger x.root() + path]
        path.len() > 0 && !x.is_aside(start, path) && is_file(disk, x.root() + path)
            && !x.is_filed(n, path) implies exists|k: int| #[trigger]
        stands_at(x.old, k, path) && x.is_left(0, k) && x.old[k].1 is File by {
        assert(!lists(x.new, path));
        assert(x.lists_old_file(path));
        let k = choose|k: int| #[trigger] stands_at(x.old, k, path) && x.old[k].1 is File;
        assert(x.is_left(0, k));
    }
    assert forall|path: Parts|
        #![trigger x.root() + path]
        path.len() > 0 && !x.is_aside(start, path) && is_dir(disk, x.root() + path) && !lists_dir(
            x.new,
            path,
        ) implies exists|k: int| #[trigger]
        stands_at(x.old, k, path) && x.is_left(0, k) && x.old[k].1 is Dir by {
        let k = choose|k: int| #[trigger] stands_at(x.old, k, path) && x.old[k].1 is Dir;
        if lists(x.new, path) {
            let j = choose|j: int| #[trigger] stands_at(x.new, j, path);
            assert(x.new[j].1 is File);
            assert(x.is_filed(n, path));
        }
        assert(x.is_left(0, k));
    }
}

/// The next item of the old tree that the new one lacks can be removed.
proof fn lemma_departure_is_free(x: Exchange, start: Disk, disk: Disk, n: int)
    requires
        x.starts_from(start),
        x.strays_fit(start),
        x.replaced_dirs_are_empty(),
        0 <= n < x.old.len(),
        x.is_clearing(start, disk, n),
    ensures
        !is_blocked(disk, x.root() + place(x.old, n)),
{
    let path = place(x.old, n);
    assert forall|above: Parts| #[trigger] leads_to(above, path) implies !is_file(
        disk,
        x.root() + above,
    ) by {
        if is_file(disk, x.root() + above) {
            assert(leads_to(above, place(x.old, n)));
            assert(lists_dir(x.old, above));
            let d = choose|d: int| #[trigger] stands_at(x.old, d, above) && x.old[d].1 is Dir;
            if x.is_filed(x.new.len() as int, above) {
                let j = choose|j: int| #[trigger]
                    stands_at(x.new, j, above) && j < x.new.len() && x.new[j].1 is File;
                assert(x.old[d].1 is Dir && x.new[j].1 is File);
                assert(!leads_to(place(x.old, d), place(x.old, n)));
            } else {
                let k = choose|k: int| #[trigger]
                    stands_at(x.old, k, above) && x.is_left(n, k) && x.old[k].1 is File;
                lemma_same_place(x.old, x.old_data, d, x.old, x.old_data, k);
            }
        }
    }
    lemma_not_blocked(x, start, disk, path);
}

/// Taking away an item that the new tree lacks, with all that is below it, leaves the
/// new tree alone.
proof fn lemma_cleared_at(x: Exchange, start: Disk, disk: Disk, after: Disk, n: int)
    requires
        x.starts_from(start),
        x.strays_fit(start),
        0 <= n < x.old.len(),
        place(x.old, n).len() > 0,
        !lists(x.new, place(x.old, n)),
        x.is_clearing(start, disk, n),
        !after.contains_key(x.root() + place(x.old, n)),
        forall|p: Parts|
            #![trigger after.contains_key(p)]
            after.contains_key(p) ==> disk.contains_key(p) && after[p] == disk[p],
        forall|p: Parts|
            #![trigger after.contains_key(p)]
            disk.contains_key(p) && !(x.root() + place(x.old, n)).is_prefix_of(p)
                ==> after.contains_key(p),
        forall|p: Parts|
            #![trigger after.contains_key(p)]
            disk.contains_key(p) && !after.contains_key(p) ==> p == x.root() + place(x.old, n)
                || x.old[n].1 is Dir,
    ensures
        x.is_clearing(start, after, n + 1),
{
    let path = place(x.old, n);
    let full = x.root() + path;
    assert forall|p: Parts|
        #![trigger x.root() + p]
        p.len() > 0 && lists(x.new, p) implies !full.is_prefix_of(x.root() + p) by {
        lemma_leads_with_root(x.root(), path, p);
        let j = choose|j: int| #[trigger] stands_at(x.new, j, p);
        if path.is_prefix_of(p) {
            if path.len() == p.len() {
                assert(path =~= p);
            } else {
                assert(leads_to(path, place(x.new, j)));
                assert(lists_dir(x.new, path));
                let d = choose|d: int| #[trigger] stands_at(x.new, d, path) && x.new[d].1 is Dir;
                assert(lists(x.new, path));
            }
        }
    }
    assert forall|j: int| #![trigger x.new[j]] 0 <= j < x.new.len() && x.new[j].1 is File implies {
        &&& after.contains_key(x.root() + place(x.new, j))
        &&& after[x.root() + place(x.new, j)] == Node::File(x.new_data[j])
    } by {
        let p = place(x.new, j);
        assert(p.len() > 0);
        assert(stands_at(x.new, j, p));
        assert(lists(x.new, p));
        assert(!full.is_prefix_of(x.root() + p));
        assert(after.contains_key(x.root() + p));
    }
    assert forall|p: Parts|
        #![trigger x.root() + p]
        p.len() > 0 && !x.is_aside(start, p) && is_file(after, x.root() + p) implies x.is_filed(
        x.new.len() as int,
        p,
    ) || exists|k: int| #[trigger]
        stands_at(x.old, k, p) && x.is_left(n + 1, k) && x.old[k].1 is File by {
        assert(is_file(disk, x.root() + p));
        if !x.is_filed(x.new.len() as int, p) {
            let k = choose|k: int| #[trigger]
                stands_at(x.old, k, p) && x.is_left(n, k) && x.old[k].1 is File;
            assert(k != n);
            assert(x.is_left(n + 1, k));
        }
    }
    assert forall|p: Parts|
        #![trigger x.root() + p]
        p.len() > 0 && !x.is_aside(start, p) && is_dir(after, x.root() + p) implies lists_dir(
        x.new,
        p,
    ) || exists|k: int| #[trigger]
        stands_at(x.old, k, p) && x.is_left(n + 1, k) && x.old[k].1 is Dir by {
        assert(is_dir(disk, x.root() + p));
        if !lists_dir(x.new, p) {
            let k = choose|k: int| #[trigger]
                stands_at(x.old, k, p) && x.is_left(n, k) && x.old[k].1 is Dir;
            assert(k != n);
            assert(x.is_left(n + 1, k));
        }
    }
    assert forall|p: Parts|
        #![trigger x.root() + p]
        p.len() > 0 && lists_dir(x.new, p) && is_dir(start, x.root() + p) implies is_dir(
        after,
        x.root() + p,
    ) by {
        let d = choose|d: int| #[trigger] stands_at(x.new, d, p) && x.new[d].1 is Dir;
        assert(lists(x.new, p));
        assert(is_dir(disk, x.root() + p));
        assert(after.contains_key(x.root() + p));
    }
    assert forall|p: Parts| #![trigger x.is_aside(start, p)] x.is_aside(start, p) implies {
        &&& !x.is_doomed(p) ==> after.contains_key(x.root() + p)
        &&& after.contains_key(x.root() + p) ==> after[x.root() + p] == start[x.root() + p]
    } by {
        lemma_below_root(x.root(), p, path);
        lemma_leads_with_root(x.root(), path, p);
        assert(stands_at(x.old, n, path));
        assert(lists(x.old, path));
        if disk.contains_key(x.root() + p) && !after.contains_key(x.root() + p) {
            assert(x.old[n].1 is Dir);
            assert(lists_dir(x.old, path));
            assert(path.is_prefix_of(p));
            if p.len() == path.len() {
                assert(p =~= path);
            }
            assert(leads_to(path, p));
            if lists_dir(x.new, path) {
                let d = choose|d: int| #[trigger] stands_at(x.new, d, path) && x.new[d].1 is Dir;
                assert(lists(x.new, path));
            }
            assert(x.is_doomed(p));
        }
    }
    assert forall|p: Parts|
        #![trigger after.contains_key(p)]
        !x.root().is_prefix_of(p) || p == x.root() implies {
        &&& after.contains_key(p) == start.contains_key(p)
        &&& after.contains_key(p) ==> after[p] == start[p]
    } by {
        lemma_not_below(x.root(), path, p);
        assert(disk.contains_key(p) == start.contains_key(p));
    }
}

/// The first `n` items of the old tree are dealt with by the changes for them.
proof fn lemma_departures(x: Exchange, start: Disk, disk: Disk, n: nat)
    requires
        x.starts_from(start),
        x.strays_fit(start),
        x.replaced_dirs_are_empty(),
        n <= x.old.len(),
        x.is_clearing(start, disk, 0),
    ensures
        applied(disk, x.base, crate::diff::departures(x.old, x.new, n)) matches Some(after)
            && x.is_clearing(start, after, n as int),
    decreases n,
{
    if n > 0 {
        let i = n - 1;
        lemma_departures(x, start, disk, i as nat);
        let earlier = crate::diff::departures(x.old, x.new, i as nat);
        let between = applied(disk, x.base, earlier)->0;
        let path = place(x.old, i);
        if crate::listing::has_key(x.new, x.old[i].0) {
            let j = choose|j: int| #[trigger] crate::listing::is_at(x.new, x.old[i].0, j);
            assert(stands_at(x.new, j, path));
            assert(lists(x.new, path));
            assert forall|k: int| #[trigger] x.is_left(i, k) implies x.is_left(i + 1, k) by {}
            assert(x.is_clearing(start, between, i + 1));
        } else {
            let delete = ChangeView::Delete { path: crate::key::spelled(x.old[i].0) };
            if lists(x.new, path) {
                let j = choose|j: int| #[trigger] stands_at(x.new, j, path);
                lemma_same_place(x.new, x.new_data, j, x.old, x.old_data, i);
                assert(crate::listing::is_at(x.new, x.old[i].0, j));
            }
            if path.len() == 0 {
                assert forall|p: Parts, k: int|
                    p.len() > 0 && #[trigger] stands_at(x.old, k, p) && x.is_left(
                        i,
                        k,
                    ) implies x.is_left(i + 1, k) by {}
                assert(x.is_clearing(start, between, i + 1));
            } else {
                lemma_departure_is_free(x, start, between, i);
                lemma_target(x.base, x.old, x.old_data, i);
                let full = x.root() + path;
                assert(full.is_prefix_of(full)) by {
                    assert(full =~= full.subrange(0, full.len() as int));
                }
                lemma_root_exists(x, start, between);
                let after = carried_out(between, crate::snapshot::plan_of(delete, x.base))->0;
                if is_dir(between, full) {
                    assert(stands_at(x.old, i, path));
                    assert(lists(x.old, path));
                    if lists_dir(x.new, path) {
                        let d = choose|d: int| #[trigger]
                            stands_at(x.new, d, path) && x.new[d].1 is Dir;
                        assert(lists(x.new, path));
                    }
                    let k = choose|k: int| #[trigger]
                        stands_at(x.old, k, path) && x.is_left(i, k) && x.old[k].1 is Dir;
                    lemma_same_place(x.old, x.old_data, i, x.old, x.old_data, k);
                }
                lemma_cleared_at(x, start, between, after, i);
            }
            assert(earlier.push(delete).drop_last() =~= earlier);
        }
    }
}

/// Applying the changes from an old tree to a new one, where the old one is, succeeds
/// and makes it the new one.
///
/// There are four exceptions: chunks that differ under one hash, an old directory that
/// is not empty where the new tree has a file, a file of the new tree listed before the
/// directory it is in where that directory takes the place of an old file, and an
/// unlisted file or directory in the place of the other in the new tree. Empty
/// directories are not created.
pub proof fn lemma_sync(x: Exchange, disk: Disk)
    requires
        x.starts_from(disk),
        x.strays_fit(disk),
        x.hashes_are_faithful(),
        x.replaced_dirs_are_empty(),
        x.replaced_files_come_first(),
    ensures
        applied(disk, x.base, x.changes()) matches Some(after) && x.ends_in(disk, after),
{
    let arrivals = crate::diff::arrivals(x.old, x.new, x.new_data, x.new.len());
    let departures = crate::diff::departures(x.old, x.new, x.old.len());
    lemma_arrivals(x, disk, x.new.len());
    let between = applied(disk, x.base, arrivals)->0;
    lemma_turn_to_old(x, disk, between);
    lemma_departures(x, disk, between, x.old.len());
    let after = applied(between, x.base, departures)->0;
    lemma_applied_concat(disk, x.base, arrivals, departures);
    assert forall|path: Parts, bytes: Seq<u8>|
        #![trigger lists_file(x.new, x.new_data, path, bytes)]
        path.len() > 0 && !x.is_aside(disk, path) implies (lists_file(
        x.new,
        x.new_data,
        path,
        bytes,
    ) <==> (is_file(after, x.root() + path) && after[x.root() + path] == Node::File(bytes))) by {
        if lists_file(x.new, x.new_data, path, bytes) {
            let j = choose|j: int|
                #[trigger]
                stands_at(x.new, j, path) && x.new[j].1 is File && x.new_data[j] == bytes;
            assert(x.new[j].1 is File);
        }
        if is_file(after, x.root() + path) && after[x.root() + path] == Node::File(bytes) {
            assert(x.is_filed(x.new.len() as int, path));
            let j = choose|j: int| #[trigger]
                stands_at(x.new, j, path) && j < x.new.len() && x.new[j].1 is File;
            assert(after[x.root() + place(x.new, j)] == Node::File(x.new_data[j]));
        }
    }
}

/// Applying the changes from an old file to a new one, where the old one is, makes it
/// the new one: the root may be a file.
///
/// The exception is chunks that differ under one hash.
pub proof fn lemma_sync_file(
    root: PathView,
    old: PathEntryView,
    old_bytes: Seq<u8>,
    new: PathEntryView,
    new_bytes: Seq<u8>,
    disk: Disk,
)
    requires
        old is File,
        new is File,
        crate::chunker::is_chunking(old->chunks, old_bytes),
        crate::chunker::is_chunking(new->chunks, new_bytes),
        if crate::diff::same_hashes(old->chunks, new->chunks) {
            crate::diff::matches_are_faithful(old->chunks, old_bytes, new->chunks, new_bytes)
        } else {
            crate::diff::copies_are_faithful(old->chunks, old_bytes, new->chunks, new_bytes)
        },
        crate::path::parent_text(root) is Some,
        root_exists(disk, root),
        disk[crate::path::parsed(root)] == Node::File(old_bytes),
    ensures
        ({
            let key = Seq::<char>::empty();
            let changes = crate::diff::changes(seq![(key, old)], seq![(key, new)], seq![new_bytes]);
            applied(disk, root, changes) == Some(
                disk.insert(crate::path::parsed(root), Node::File(new_bytes)),
            )
        }),
{
    let key = Seq::<char>::empty();
    let (olds, news) = (seq![(key, old)], seq![(key, new)]);
    let changes = crate::diff::changes(olds, news, seq![new_bytes]);
    let instructs = crate::diff::instructs_for(old->chunks, new->chunks, new_bytes);
    let update = ChangeView::Update { path: crate::key::spelled(key), instructs };
    assert(crate::listing::is_at(olds, key, 0));
    assert(crate::listing::is_at(news, key, 0));
    assert(crate::listing::position(olds, key) == 0);
    assert(crate::key::spelled(key) =~= Seq::empty());
    reveal_with_fuel(crate::diff::arrivals, 2);
    reveal_with_fuel(crate::diff::departures, 2);
    if crate::diff::same_hashes(old->chunks, new->chunks) {
        crate::diff::lemma_same_hashes_same_bytes(old->chunks, old_bytes, new->chunks, new_bytes);
        assert(changes =~= Seq::empty());
        assert(disk.insert(crate::path::parsed(root), Node::File(new_bytes)) =~= disk);
    } else {
        crate::diff::lemma_patch_rebuilds(old->chunks, old_bytes, new->chunks, new_bytes);
        assert(changes =~= seq![update]);
        lemma_applied_one(disk, root, update);
    }
}

/// A walk that finds a file at the root gives a snapshot of the one file, under the empty
/// key.
pub proof fn lemma_walk_gives_file(root: PathView, entry: PathEntryView)
    requires
        crate::path::parsed(entry.location()) == crate::path::parsed(root),
    ensures
        crate::listing::collected(root, seq![entry], 1) == Ok::<
            SnapshotView,
            crate::error::ErrorView,
        >(seq![(Seq::empty(), entry)]),
{
    let path = crate::path::parsed(root);
    let empty = Seq::<char>::empty();
    let nothing: SnapshotView = Seq::empty();
    reveal_with_fuel(crate::listing::collected, 2);
    assert(path.is_prefix_of(path)) by {
        assert(path =~= path.subrange(0, path.len() as int));
    }
    assert(path.skip(path.len() as int) =~= Seq::empty());
    assert(crate::key::key_of(Seq::empty()) =~= empty);
    assert(!crate::listing::has_key(nothing, empty));
    assert(nothing.push((empty, entry)) =~= seq![(empty, entry)]);
}

/// Where there is no root, no changes can be applied.
pub proof fn lemma_no_root(disk: Disk, root: PathView, changes: Seq<ChangeView>)
    requires
        !root_exists(disk, root),
        changes.len() > 0,
    ensures
        applied(disk, root, changes) is None,
    decreases changes.len(),
{
    if changes.len() > 1 {
        lemma_no_root(disk, root, changes.drop_last());
    } else {
        assert(applied(disk, root, changes.drop_last()) == Some(disk));
    }
}

} // verus!
