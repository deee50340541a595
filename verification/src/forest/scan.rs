//! Registering a directory: what filling a forest from a directory found
//! on disk gives, as a function on the model of the forest.

use crate::disk::{DiskEntry, DiskNode, FileKind};
use crate::error::{ErrorView, IoFailure};
use crate::forest::model::{ForestView, TreeView};
use crate::forest::{DirectoryAddOptions, RecursiveBehaviour};
use vstd::prelude::*;

verus! {

/// A forest after a directory was read into it, and how the reading ended:
/// with nothing to do, with the directory to be removed again, or with an
/// error.
pub struct Scan<T> {
    pub forest: ForestView<T>,
    pub outcome: Result<RecursiveBehaviour, ErrorView>,
}

/// What a failure means while a directory is read: the item is passed over
/// where the options tolerate the failure, and else the reading ends with
/// the failure as its error.
pub open spec fn failure_ends(failure: IoFailure, options: DirectoryAddOptions) -> Option<
    ErrorView,
> {
    if options.tolerates(failure.kind) {
        None
    } else {
        Some(ErrorView::Io(failure@))
    }
}

/// The forest after the directory `dir`, found on disk as `disk`, was read
/// into the tree with the root `root`, with all that lies below it.
///
/// A directory that cannot be listed is to be removed if the options
/// tolerate that, and is an error if they do not.
pub open spec fn scan_dir<T>(
    forest: ForestView<T>,
    root: Seq<Seq<u8>>,
    dir: Seq<Seq<u8>>,
    disk: DiskNode,
    options: DirectoryAddOptions,
    fresh: T,
) -> Scan<T>
    decreases disk, 0nat,
{
    match disk.listing {
        Err(failure) => match failure_ends(failure, options) {
            Some(e) => Scan { forest, outcome: Err(e) },
            None => Scan { forest, outcome: Ok(RecursiveBehaviour::Delete) },
        },
        Ok(entries) => scan_entries(forest, root, dir, entries@, 0, options, fresh),
    }
}

/// The forest after the items of a listing of `dir`, from the index `from`
/// on, were read into the tree with the root `root`.
///
/// Regular files and directories are added with the payload `fresh`, and a
/// directory is read in turn and removed again if that is what its reading
/// asks for. Entries of another type are passed over.
pub open spec fn scan_entries<T>(
    forest: ForestView<T>,
    root: Seq<Seq<u8>>,
    dir: Seq<Seq<u8>>,
    entries: Seq<DiskEntry>,
    from: int,
    options: DirectoryAddOptions,
    fresh: T,
) -> Scan<T>
    decreases entries, entries.len() - from,
{
    if from < 0 || from >= entries.len() {
        Scan { forest, outcome: Ok(RecursiveBehaviour::Nothing) }
    } else {
        match entries[from] {
            DiskEntry::Failed(failure) => match failure_ends(failure, options) {
                Some(e) => Scan { forest, outcome: Err(e) },
                None => scan_entries(forest, root, dir, entries, from + 1, options, fresh),
            },
            DiskEntry::Found { name, node } => match node.kind {
                Err(failure) => match failure_ends(failure, options) {
                    Some(e) => Scan { forest, outcome: Err(e) },
                    None => scan_entries(forest, root, dir, entries, from + 1, options, fresh),
                },
                Ok(FileKind::Other) => scan_entries(
                    forest,
                    root,
                    dir,
                    entries,
                    from + 1,
                    options,
                    fresh,
                ),
                Ok(FileKind::Regular) => scan_entries(
                    forest.with_path(root, dir.push(name@), fresh, false, fresh),
                    root,
                    dir,
                    entries,
                    from + 1,
                    options,
                    fresh,
                ),
                Ok(FileKind::Directory) => {
                    let path = dir.push(name@);
                    let below = scan_dir(
                        forest.with_path(root, path, fresh, true, fresh),
                        root,
                        path,
                        node,
                        options,
                        fresh,
                    );
                    match below.outcome {
                        Err(e) => below,
                        Ok(RecursiveBehaviour::Delete) => scan_entries(
                            below.forest.without_path(root, path),
                            root,
                            dir,
                            entries,
                            from + 1,
                            options,
                            fresh,
                        ),
                        Ok(RecursiveBehaviour::Nothing) => scan_entries(
                            below.forest,
                            root,
                            dir,
                            entries,
                            from + 1,
                            options,
                            fresh,
                        ),
                    }
                },
            },
        }
    }
}

/// The forest in which the tree of `dir` starts anew: it holds `dir`
/// alone, as a directory with the payload `fresh`, in the place of the tree
/// that `dir` had before, or behind the other trees if it had none.
pub open spec fn started<T>(forest: ForestView<T>, dir: Seq<Seq<u8>>, fresh: T) -> ForestView<T> {
    forest.put_tree(TreeView::single(dir, fresh))
}

/// A forest after a directory was registered, and the error that ended the
/// registration, if any.
pub struct Registered<T> {
    pub forest: ForestView<T>,
    pub error: Option<ErrorView>,
}

/// The forest after `dir`, found on disk as `disk`, was registered with all
/// that lies below it: the tree of `dir` starts anew, is filled from the
/// listings, and is dropped again if `dir` itself cannot be listed.
pub open spec fn register_recursively<T>(
    forest: ForestView<T>,
    dir: Seq<Seq<u8>>,
    disk: DiskNode,
    options: DirectoryAddOptions,
    fresh: T,
) -> Registered<T> {
    let scan = scan_dir(started(forest, dir, fresh), dir, dir, disk, options, fresh);
    match scan.outcome {
        Err(e) => Registered { forest: scan.forest, error: Some(e) },
        Ok(RecursiveBehaviour::Delete) => Registered {
            forest: scan.forest.without_path(dir, dir),
            error: None,
        },
        Ok(RecursiveBehaviour::Nothing) => Registered { forest: scan.forest, error: None },
    }
}

/// The forest after the items of a listing of `dir`, from the index `from`
/// on, were added to the tree with the root `dir`, without reading any
/// directory among them. Items that are missing or may not be read are
/// passed over.
pub open spec fn list_entries<T>(
    forest: ForestView<T>,
    dir: Seq<Seq<u8>>,
    entries: Seq<DiskEntry>,
    from: int,
    fresh: T,
) -> Registered<T>
    decreases entries.len() - from,
{
    if from < 0 || from >= entries.len() {
        Registered { forest, error: None }
    } else {
        match entries[from] {
            DiskEntry::Failed(failure) => if failure.kind.is_gone() {
                list_entries(forest, dir, entries, from + 1, fresh)
            } else {
                Registered { forest, error: Some(ErrorView::Io(failure@)) }
            },
            DiskEntry::Found { name, node } => match node.kind {
                Err(failure) => if failure.kind.is_gone() {
                    list_entries(forest, dir, entries, from + 1, fresh)
                } else {
                    Registered { forest, error: Some(ErrorView::Io(failure@)) }
                },
                Ok(FileKind::Other) => list_entries(forest, dir, entries, from + 1, fresh),
                Ok(kind) => list_entries(
                    forest.with_path(
                        dir,
                        dir.push(name@),
                        fresh,
                        kind == FileKind::Directory,
                        fresh,
                    ),
                    dir,
                    entries,
                    from + 1,
                    fresh,
                ),
            },
        }
    }
}

/// The forest after `dir`, found on disk as `disk`, was registered with its
/// own entries only. A directory that is missing or may not be listed
/// leaves the forest as it is.
pub open spec fn register_non_recursively<T>(
    forest: ForestView<T>,
    dir: Seq<Seq<u8>>,
    disk: DiskNode,
    fresh: T,
) -> Registered<T> {
    match disk.listing {
        Err(failure) => if failure.kind.is_gone() {
            Registered { forest, error: None }
        } else {
            Registered { forest, error: Some(ErrorView::Io(failure@)) }
        },
        Ok(entries) => list_entries(started(forest, dir, fresh), dir, entries@, 0, fresh),
    }
}

} // verus!
