//! The path forest: mirror trees of the watched directories.

use crate::disk::{distinct_names, DiskEntry, DiskNode, FileKind};
use crate::error::{ErrorView, IoErrorKind, IoFailure, TuxDriveError};
use crate::forest::coverage::{lemma_flat_coverage, lemma_forest_coverage, mirror_entry};
use crate::forest::model::{
    entry_after_add, entry_after_remove, lemma_extends_chain, Entry, ForestView, TreeView,
};
use crate::forest::scan::{
    failure_ends, list_entries, register_non_recursively, register_recursively, scan_dir,
    scan_entries,
};
use crate::forest::tree::PathTree;
use crate::forest::walk::{
    behind_trees, lemma_sweep_trees_wf, lemma_walk_one_wf, sweep_trees, walk_one, walk_tree,
    Directive, NewEntry, Step,
};
use crate::path::{extends, AbsPath};
use vstd::prelude::*;

pub mod coverage;
pub mod info;
pub mod model;
pub mod named;
pub mod reach;
pub mod scan;
pub mod shown;
pub mod tree;
pub mod walk;

verus! {

/// The payload that `T::default()` returns.
pub open spec fn default_payload<T: Default>() -> T {
    choose|d: T| call_ensures(T::default, (), d)
}

/// `T::default()` always returns the same payload.
pub open spec fn has_fixed_default<T: Default>() -> bool {
    forall|d: T| call_ensures(T::default, (), d) ==> d == default_payload::<T>()
}

/// The view of an optional name.
pub open spec fn name_view(name: Option<Vec<u8>>) -> Option<Seq<u8>> {
    match name {
        Some(n) => Some(n@),
        None => None,
    }
}

/// A path that a visitor wants added below the node it was shown, and
/// whether it is a directory.
#[derive(Debug, PartialEq, Eq)]
pub struct NewPath {
    pub path: AbsPath,
    pub is_dir: bool,
}

impl View for NewPath {
    type V = NewEntry;

    open spec fn view(&self) -> NewEntry {
        NewEntry { path: self.path@, is_dir: self.is_dir }
    }
}

/// The views of some new paths.
pub open spec fn new_paths_view(paths: Seq<NewPath>) -> Seq<NewEntry> {
    Seq::new(paths.len(), |i: int| paths[i]@)
}

/// What a visitor says of the node it was shown.
#[derive(Debug, PartialEq, Eq)]
pub enum DfsFuncBehaviour {
    /// Go on with the children.
    Continue,
    /// Keep the node, and leave its children alone.
    Stop,
    /// Remove the node and all below it.
    Delete,
    /// Add children for these paths, and go on with the children that were
    /// there before.
    AddAndContinue(Vec<NewPath>),
    /// Add children for these paths, and leave the children alone.
    AddAndStop(Vec<NewPath>),
}

impl View for DfsFuncBehaviour {
    type V = Directive;

    open spec fn view(&self) -> Directive {
        match self {
            DfsFuncBehaviour::Continue => Directive::Continue,
            DfsFuncBehaviour::Stop => Directive::Stop,
            DfsFuncBehaviour::Delete => Directive::Delete,
            DfsFuncBehaviour::AddAndContinue(new) => Directive::AddAndContinue(
                new_paths_view(new@),
            ),
            DfsFuncBehaviour::AddAndStop(new) => Directive::AddAndStop(new_paths_view(new@)),
        }
    }
}

/// What is to become of a subtree after its walk.
#[derive(Debug, Clone, Copy, PartialEq, Eq, Structural)]
pub enum RecursiveBehaviour {
    Nothing,
    Delete,
}

/// What a visitor is shown of a node: the paths of the node's children,
/// the node's payload, which it may change, and whether the node stands for
/// a directory.
#[derive(Debug)]
pub struct DfsMutInfo<'info, T> {
    pub children_paths: Vec<AbsPath>,
    pub info: &'info mut T,
    pub is_dir: bool,
}

/// The views of some paths.
pub open spec fn paths_view(paths: Seq<AbsPath>) -> Seq<Seq<Seq<u8>>> {
    Seq::new(paths.len(), |i: int| paths[i]@)
}

/// The view of the result of a visit.
pub open spec fn visit_view(r: Result<DfsFuncBehaviour, TuxDriveError>) -> Result<
    Directive,
    ErrorView,
> {
    match r {
        Ok(b) => Ok(b@),
        Err(e) => Err(e@),
    }
}

/// The view of the result of a walk.
pub open spec fn walk_view(r: Result<RecursiveBehaviour, TuxDriveError>) -> Result<
    RecursiveBehaviour,
    ErrorView,
> {
    match r {
        Ok(b) => Ok(b),
        Err(e) => Err(e@),
    }
}

/// A visitor of the nodes of a path tree.
///
/// A visitor is shown one node at a time and answers with a directive. What
/// it does is a function, `step`, of what it is and what it is shown, so
/// that a whole walk is a function too.
pub trait DfsVisitor<T>: View + Sized {
    /// What a visit does: the visitor afterwards, the payload it leaves in
    /// the node, and the directive or the error it answers with.
    spec fn step(
        model: Self::V,
        path: Seq<Seq<u8>>,
        children: Seq<Seq<Seq<u8>>>,
        info: T,
        is_dir: bool,
    ) -> Step<Self::V, T>;

    /// Visits the node with the path `path`.
    fn visit(&mut self, path: &AbsPath, node: DfsMutInfo<'_, T>) -> (r: Result<
        DfsFuncBehaviour,
        TuxDriveError,
    >)
        ensures
            Self::step(
                old(self)@,
                path@,
                paths_view(node.children_paths@),
                *old(node.info),
                node.is_dir,
            ) == (Step { model: final(self)@, info: *final(node.info), outcome: visit_view(r) }),
    ;
}

/// Which failures are passed over while a directory is registered.
#[derive(Debug, Clone, Copy)]
pub struct DirectoryAddOptions {
    ignore_not_found: bool,
    ignore_no_access: bool,
}

impl DirectoryAddOptions {
    /// Whether missing paths are passed over.
    pub closed spec fn ignores_not_found(self) -> bool {
        self.ignore_not_found
    }

    /// Whether paths that may not be read are passed over.
    pub closed spec fn ignores_no_access(self) -> bool {
        self.ignore_no_access
    }

    /// Whether a failure of the kind `kind` is passed over.
    pub open spec fn tolerates(self, kind: IoErrorKind) -> bool {
        ||| kind == IoErrorKind::NotFound && self.ignores_not_found()
        ||| kind == IoErrorKind::PermissionDenied && self.ignores_no_access()
    }

    /// The options that pass over both.
    pub closed spec fn tolerant() -> Self {
        Self { ignore_not_found: true, ignore_no_access: true }
    }

    /// The options that pass over both.
    pub fn new() -> (options: Self)
        ensures
            options == Self::tolerant(),
            options.ignores_not_found(),
            options.ignores_no_access(),
    {
        Self { ignore_not_found: true, ignore_no_access: true }
    }

    /// The same options, but that missing paths are passed over or not.
    pub fn with_ignore_not_found(self, ignore: bool) -> (options: Self)
        ensures
            options.ignores_not_found() == ignore,
            options.ignores_no_access() == self.ignores_no_access(),
    {
        Self { ignore_not_found: ignore, ignore_no_access: self.ignore_no_access }
    }

    /// The same options, but that paths that may not be read are passed
    /// over or not.
    pub fn with_ignore_no_access(self, ignore: bool) -> (options: Self)
        ensures
            options.ignores_not_found() == self.ignores_not_found(),
            options.ignores_no_access() == ignore,
    {
        Self { ignore_not_found: self.ignore_not_found, ignore_no_access: ignore }
    }

    /// Whether missing paths are passed over.
    pub fn ignore_not_found(&self) -> (ignore: bool)
        ensures
            ignore == self.ignores_not_found(),
    {
        self.ignore_not_found
    }

    /// Whether paths that may not be read are passed over.
    pub fn ignore_no_access(&self) -> (ignore: bool)
        ensures
            ignore == self.ignores_no_access(),
    {
        self.ignore_no_access
    }

    /// Decides whether a failure is passed over, or ends the registration.
    fn check(&self, failure: &IoFailure) -> (error: Option<TuxDriveError>)
        ensures
            match error {
                Some(e) => failure_ends(*failure, *self) == Some(e@),
                None => failure_ends(*failure, *self) is None,
            },
    {
        let tolerated = match failure.kind {
            IoErrorKind::NotFound => self.ignore_not_found,
            IoErrorKind::PermissionDenied => self.ignore_no_access,
            _ => false,
        };
        if tolerated {
            None
        } else {
            Some(TuxDriveError::Io(failure.clone()))
        }
    }
}

/// The views of some trees.
pub open spec fn tree_views<T>(trees: Seq<PathTree<T>>) -> Seq<TreeView<T>> {
    Seq::new(trees.len(), |i: int| trees[i]@)
}

/// A path forest: the path trees of the registered directories, by their
/// roots.
#[derive(Debug)]
pub struct PathForest<T> {
    trees: Vec<PathTree<T>>,
}

impl<T> View for PathForest<T> {
    type V = ForestView<T>;

    closed spec fn view(&self) -> ForestView<T> {
        ForestView { trees: tree_views(self.trees@) }
    }
}

impl<T> PathForest<T> {
    /// Every tree is well formed, and no two trees have the same root.
    pub open spec fn wf(&self) -> bool {
        self@.wf()
    }

    /// The forest without trees.
    pub fn new() -> (forest: Self)
        ensures
            forest@.trees == Seq::<TreeView<T>>::empty(),
            forest.wf(),
    {
        let forest = Self { trees: Vec::new() };
        assert(forest@.trees =~= Seq::<TreeView<T>>::empty());
        forest
    }

    /// The trees, in the order in which they are walked. Whoever changes
    /// them keeps the roots apart.
    pub fn trees_mut(&mut self) -> (trees: &mut Vec<PathTree<T>>)
        ensures
            tree_views(trees@) == old(self)@.trees,
            final(self)@.trees == tree_views(final(trees)@),
    {
        &mut self.trees
    }

    /// The number of trees.
    pub fn len(&self) -> (n: usize)
        ensures
            n == self@.trees.len(),
    {
        self.trees.len()
    }

    /// The index of the tree whose root is `root`.
    fn tree_index(&self, root: &AbsPath) -> (found: Option<usize>)
        ensures
            match found {
                Some(i) => self@.position(root@, 0) == Some(i as int) && i < self.trees@.len(),
                None => self@.position(root@, 0) is None,
            },
    {
        let mut i: usize = 0;
        while i < self.trees.len()
            invariant
                i <= self.trees@.len(),
                self@.position(root@, 0) == self@.position(root@, i as int),
            decreases self.trees@.len() - i,
        {
            if self.trees[i].has_root(root) {
                return Some(i);
            }
            i += 1;
        }
        None
    }

    /// What the tree with the root `root_path` records about `path`: the
    /// payload, and whether the path is a directory.
    pub fn lookup(&self, root_path: &AbsPath, path: &AbsPath) -> (found: Option<(&T, bool)>)
        ensures
            match found {
                Some((info, is_dir)) => self@.entry(root_path@, path@) == Some(
                    Entry { info: *info, is_dir },
                ),
                None => self@.entry(root_path@, path@) is None,
            },
    {
        match self.tree_index(root_path) {
            Some(i) => self.trees[i].lookup(path),
            None => None,
        }
    }

    /// Puts `tree` in the place of the tree of the same root, or behind the
    /// others.
    fn put_tree(&mut self, tree: PathTree<T>, at: Option<usize>)
        requires
            match at {
                Some(i) => old(self)@.position(tree@.root, 0) == Some(i as int) && i < old(
                    self,
                )@.trees.len(),
                None => old(self)@.position(tree@.root, 0) is None,
            },
        ensures
            final(self)@ == old(self)@.put_tree(tree@),
    {
        match at {
            Some(i) => {
                self.trees[i] = tree;
                assert(self@.trees =~= old(self)@.trees.update(i as int, tree@));
            },
            None => {
                self.trees.push(tree);
                assert(self@.trees =~= old(self)@.trees.push(tree@));
            },
        }
    }

    /// Lets the tree of `dir_path` start anew: it holds `dir_path` alone,
    /// as a directory with the default payload.
    fn start_tree(&mut self, dir_path: &AbsPath) where T: Default
        requires
            old(self).wf(),
            has_fixed_default::<T>(),
        ensures
            final(self).wf(),
            final(self)@ == crate::forest::scan::started(
                old(self)@,
                dir_path@,
                default_payload::<T>(),
            ),
            final(self)@.has_root(dir_path@),
    {
        proof {
            let single = TreeView::single(dir_path@, default_payload::<T>());
            crate::forest::model::NodeView::lemma_leaf_find(
                TreeView::<T>::root_name(dir_path@),
                default_payload::<T>(),
                true,
                Seq::empty(),
            );
            self@.lemma_put_tree(single, dir_path@);
        }
        let at = self.tree_index(dir_path);
        let tree = PathTree::new(dir_path);
        self.put_tree(tree, at);
    }

    /// Adds `path` to the tree with the root `root_path`, which is made
    /// first where it is missing. Directories that are missing on the way
    /// are made with the default payload. The node at `path` holds `info`
    /// and `is_dir` afterwards; if the tree held the path before, what lay
    /// below it stays as it was.
    pub fn add_path(&mut self, root_path: &AbsPath, path: &AbsPath, info: T, is_dir: bool) where
        T: Default,

        requires
            old(self).wf(),
            extends(path@, root_path@),
            has_fixed_default::<T>(),
        ensures
            final(self).wf(),
            final(self)@ == old(self)@.with_path(
                root_path@,
                path@,
                info,
                is_dir,
                default_payload::<T>(),
            ),
            final(self)@.has_root(root_path@),
            forall|other: Seq<Seq<u8>>|
                other != root_path@ ==> final(self)@.tree(other) == old(self)@.tree(other),
            forall|q: Seq<Seq<u8>>|
                extends(q, root_path@) ==> #[trigger] final(self)@.entry(root_path@, q)
                    == entry_after_add(
                    old(self)@.tree_or_single(root_path@, default_payload::<T>()).entry(q),
                    q,
                    path@,
                    info,
                    is_dir,
                    default_payload::<T>(),
                ),
    {
        let ghost before = self@;
        let ghost fresh = default_payload::<T>();
        let ghost base = before.tree_or_single(root_path@, fresh);
        let found = self.tree_index(root_path);
        proof {
            before.lemma_position(root_path@, 0);
            before.lemma_with_path(root_path@, path@, info, is_dir, fresh);
        }
        match found {
            Some(i) => {
                assert(before.trees[i as int] == self.trees@[i as int]@);
                let tree = &mut self.trees[i];
                tree.add_path(path, info, is_dir);
                assert(self@.trees =~= before.trees.update(
                    i as int,
                    base.with_path(path@, info, is_dir, fresh),
                ));
            },
            None => {
                let mut tree = PathTree::new(root_path);
                tree.add_path(path, info, is_dir);
                self.put_tree(tree, None);
            },
        }
    }

    /// Removes `path`, with all that lies below it, from the tree with the
    /// root `root_path`, and says whether there was such a path. Removing
    /// the root removes the tree.
    pub fn remove_path(&mut self, root_path: &AbsPath, path: &AbsPath) -> (removed: bool)
        requires
            old(self).wf(),
            old(self)@.has_root(root_path@),
            extends(path@, root_path@),
        ensures
            final(self).wf(),
            final(self)@ == old(self)@.without_path(root_path@, path@),
            removed == old(self)@.entry(root_path@, path@) is Some,
            final(self)@.has_root(root_path@) == (path@.len() > root_path@.len()),
            forall|other: Seq<Seq<u8>>|
                other != root_path@ ==> final(self)@.tree(other) == old(self)@.tree(other),
            forall|q: Seq<Seq<u8>>| #[trigger]
                final(self)@.entry(root_path@, q) == entry_after_remove(
                    old(self)@.entry(root_path@, q),
                    q,
                    path@,
                ),
    {
        let ghost before = self@;
        let found = self.tree_index(root_path);
        proof {
            before.lemma_position(root_path@, 0);
        }
        match found {
            Some(i) => {
                let ghost tree = before.trees[i as int];
                assert(tree == self.trees@[i as int]@);
                if path.len() == root_path.len() {
                    self.trees.remove(i);
                    proof {
                        assert(self@.trees =~= before.trees.remove(i as int));
                        assert(path@ =~= root_path@) by {
                            assert(path@.subrange(0, root_path@.len() as int) =~= path@);
                        }
                        assert(tree.entry(path@) is Some) by {
                            assert(path@.skip(tree.root.len() as int).len() == 0);
                        }
                        assert forall|other: Seq<Seq<u8>>| true implies #[trigger] self@.tree(other)
                            == if other == root_path@ {
                            None
                        } else {
                            before.tree(other)
                        } by {
                            before.lemma_drop_tree(root_path@, other);
                        }
                        before.lemma_drop_tree(root_path@, root_path@);
                        assert forall|q: Seq<Seq<u8>>| true implies #[trigger] self@.entry(root_path@, q)
                            == entry_after_remove(before.entry(root_path@, q), q, path@) by {
                            if !extends(q, path@) {
                                assert(!tree.covers(q));
                            }
                        }
                    }
                    true
                } else {
                    proof {
                        before.lemma_without_path(root_path@, path@);
                    }
                    let slot = &mut self.trees[i];
                    let removed = slot.remove_path(path);
                    assert(self@.trees =~= before.trees.update(
                        i as int,
                        tree.without_path(path@),
                    ));
                    removed
                }
            },
            None => false,
        }
    }
}

impl<T> PathForest<T> {
    /// Registers the directory `dir_path`, found on disk as `disk`, with
    /// all that lies below it.
    ///
    /// The tree of `dir_path` starts anew. Every regular file and every
    /// directory that the listings lead to is added with the default payload;
    /// entries of other types are passed over, and so is what is missing or
    /// may not be read, as far as `options` tolerate that: a directory that
    /// cannot be listed is left out, and if that is `dir_path` itself no tree
    /// is left. Any other failure ends the registration with its error.
    pub fn add_dir_recursively(
        &mut self,
        dir_path: &AbsPath,
        disk: &DiskNode,
        options: DirectoryAddOptions,
    ) -> (r: Result<(), TuxDriveError>) where T: Default
        requires
            old(self).wf(),
            has_fixed_default::<T>(),
            dir_path.is_canonical(),
            disk.kind == Ok::<FileKind, IoFailure>(FileKind::Directory),
        ensures
            final(self).wf(),
            ({
                let registered = register_recursively(
                    old(self)@,
                    dir_path@,
                    *disk,
                    options,
                    default_payload::<T>(),
                );
                &&& final(self)@ == registered.forest
                &&& match r {
                    Ok(_) => registered.error is None,
                    Err(e) => registered.error == Some(e@),
                }
            }),
            r is Ok && disk.names_unique() ==> {
                &&& final(self)@.has_root(dir_path@) == disk.listing is Ok
                &&& forall|other: Seq<Seq<u8>>|
                    other != dir_path@ ==> #[trigger] final(self)@.tree(other) == old(self)@.tree(
                        other,
                    )
                &&& disk.listing is Ok ==> forall|q: Seq<Seq<u8>>|
                    extends(q, dir_path@) ==> #[trigger] final(self)@.entry(dir_path@, q)
                        == mirror_entry(
                        disk.mirrored(q.skip(dir_path@.len() as int)),
                        default_payload::<T>(),
                    )
            },
    {
        proof {
            let registered = register_recursively(
                self@,
                dir_path@,
                *disk,
                options,
                default_payload::<T>(),
            );
            if registered.error is None && disk.names_unique() {
                lemma_forest_coverage(self@, dir_path@, *disk, options, default_payload::<T>());
            }
        }
        assert(dir_path@.subrange(0, dir_path@.len() as int) =~= dir_path@);
        self.start_tree(dir_path);
        match self.add_dir_rec_intern(dir_path, dir_path, disk, options) {
            Err(e) => Err(e),
            Ok(RecursiveBehaviour::Nothing) => Ok(()),
            Ok(RecursiveBehaviour::Delete) => {
                self.remove_path(dir_path, dir_path);
                Ok(())
            },
        }
    }

    /// Registers the directory `dir_path`, found on disk as `disk`, with
    /// its own entries only.
    ///
    /// The tree of `dir_path` starts anew and gets a node for each regular
    /// file and each directory of the listing, with the default payload.
    /// Entries of other types are passed over, and so is what is missing or
    /// may not be read: if that is `dir_path` itself, the forest stays as it
    /// is. Any other failure ends the registration with its error.
    pub fn add_dir_non_recursively(&mut self, dir_path: &AbsPath, disk: &DiskNode) -> (r: Result<
        (),
        TuxDriveError,
    >) where T: Default
        requires
            old(self).wf(),
            has_fixed_default::<T>(),
            dir_path.is_canonical(),
            disk.kind == Ok::<FileKind, IoFailure>(FileKind::Directory),
        ensures
            final(self).wf(),
            ({
                let registered = register_non_recursively(
                    old(self)@,
                    dir_path@,
                    *disk,
                    default_payload::<T>(),
                );
                &&& final(self)@ == registered.forest
                &&& match r {
                    Ok(_) => registered.error is None,
                    Err(e) => registered.error == Some(e@),
                }
            }),
            r is Ok && disk.listing is Ok && distinct_names(disk.listing->Ok_0@) ==> {
                &&& final(self)@.has_root(dir_path@)
                &&& forall|other: Seq<Seq<u8>>|
                    other != dir_path@ ==> #[trigger] final(self)@.tree(other) == old(self)@.tree(
                        other,
                    )
                &&& forall|q: Seq<Seq<u8>>|
                    extends(q, dir_path@) ==> #[trigger] final(self)@.entry(dir_path@, q)
                        == mirror_entry(
                        disk.listed(q.skip(dir_path@.len() as int)),
                        default_payload::<T>(),
                    )
            },
            r is Ok && disk.listing is Err ==> final(self)@ == old(self)@,
    {
        proof {
            let registered = register_non_recursively(
                self@,
                dir_path@,
                *disk,
                default_payload::<T>(),
            );
            if registered.error is None && disk.listing is Ok && distinct_names(
                disk.listing->Ok_0@,
            ) {
                lemma_flat_coverage(self@, dir_path@, *disk, default_payload::<T>());
            }
        }
        let ghost fresh = default_payload::<T>();
        let entries = match &disk.listing {
            Ok(entries) => {
                self.start_tree(dir_path);
                entries
            },
            Err(failure) => {
                if failure.kind.is_gone() {
                    return Ok(());
                } else {
                    return Err(TuxDriveError::Io(failure.clone()));
                }
            },
        };
        let ghost started = self@;
        let mut i: usize = 0;
        while i < entries.len()
            invariant
                i <= entries@.len(),
                self.wf(),
                has_fixed_default::<T>(),
                fresh == default_payload::<T>(),
                disk.listing == Ok::<Vec<DiskEntry>, IoFailure>(*entries),
                started == crate::forest::scan::started(old(self)@, dir_path@, fresh),
                list_entries(started, dir_path@, entries@, 0, fresh) == list_entries(
                    self@,
                    dir_path@,
                    entries@,
                    i as int,
                    fresh,
                ),
            decreases entries@.len() - i,
        {
            match &entries[i] {
                DiskEntry::Failed(failure) => {
                    if !failure.kind.is_gone() {
                        return Err(TuxDriveError::Io(failure.clone()));
                    }
                },
                DiskEntry::Found { name, node } => {
                    match &node.kind {
                        Err(failure) => {
                            if !failure.kind.is_gone() {
                                return Err(TuxDriveError::Io(failure.clone()));
                            }
                        },
                        Ok(FileKind::Other) => {},
                        Ok(kind) => {
                            let is_dir = match kind {
                                FileKind::Directory => true,
                                _ => false,
                            };
                            let path = dir_path.join(name);
                            assert(extends(path@, dir_path@)) by {
                                assert(path@.subrange(0, dir_path@.len() as int) =~= dir_path@);
                            }
                            self.add_path(dir_path, &path, T::default(), is_dir);
                        },
                    }
                },
            }
            i += 1;
        }
        Ok(())
    }

    /// Reads the directory `dir_path`, found on disk as `disk`, into the
    /// tree with the root `root_path`, with all that lies below it.
    fn add_dir_rec_intern(
        &mut self,
        root_path: &AbsPath,
        dir_path: &AbsPath,
        disk: &DiskNode,
        options: DirectoryAddOptions,
    ) -> (r: Result<RecursiveBehaviour, TuxDriveError>) where T: Default
        requires
            old(self).wf(),
            has_fixed_default::<T>(),
            extends(dir_path@, root_path@),
        ensures
            final(self).wf(),
            ({
                let scan = scan_dir(
                    old(self)@,
                    root_path@,
                    dir_path@,
                    *disk,
                    options,
                    default_payload::<T>(),
                );
                &&& final(self)@ == scan.forest
                &&& walk_view(r) == scan.outcome
            }),
            old(self)@.has_root(root_path@) ==> final(self)@.has_root(root_path@),
        decreases *disk,
    {
        let ghost fresh = default_payload::<T>();
        let ghost started = self@;
        let entries = match &disk.listing {
            Ok(entries) => entries,
            Err(failure) => {
                match options.check(failure) {
                    Some(e) => {
                        return Err(e);
                    },
                    None => {
                        return Ok(RecursiveBehaviour::Delete);
                    },
                }
            },
        };
        let mut i: usize = 0;
        while i < entries.len()
            invariant
                i <= entries@.len(),
                self.wf(),
                has_fixed_default::<T>(),
                fresh == default_payload::<T>(),
                extends(dir_path@, root_path@),
                disk.listing == Ok::<Vec<DiskEntry>, IoFailure>(*entries),
                started == old(self)@,
                started.has_root(root_path@) ==> self@.has_root(root_path@),
                scan_entries(started, root_path@, dir_path@, entries@, 0, options, fresh)
                    == scan_entries(
                    self@,
                    root_path@,
                    dir_path@,
                    entries@,
                    i as int,
                    options,
                    fresh,
                ),
            decreases entries@.len() - i,
        {
            match &entries[i] {
                DiskEntry::Failed(failure) => {
                    if let Some(e) = options.check(failure) {
                        return Err(e);
                    }
                },
                DiskEntry::Found { name, node } => {
                    match &node.kind {
                        Err(failure) => {
                            if let Some(e) = options.check(failure) {
                                return Err(e);
                            }
                        },
                        Ok(FileKind::Other) => {},
                        Ok(kind) => {
                            let path = dir_path.join(name);
                            assert(extends(path@, root_path@)) by {
                                assert(path@.subrange(0, dir_path@.len() as int) =~= dir_path@);
                                lemma_extends_chain(
                                    path@,
                                    dir_path@,
                                    root_path@,
                                );
                            }
                            match kind {
                                FileKind::Directory => {
                                    self.add_path(root_path, &path, T::default(), true);
                                    match self.add_dir_rec_intern(root_path, &path, node, options) {
                                        Err(e) => {
                                            return Err(e);
                                        },
                                        Ok(RecursiveBehaviour::Nothing) => {},
                                        Ok(RecursiveBehaviour::Delete) => {
                                            self.remove_path(root_path, &path);
                                        },
                                    }
                                },
                                _ => {
                                    self.add_path(root_path, &path, T::default(), false);
                                },
                            }
                        },
                    }
                },
            }
            i += 1;
        }
        Ok(RecursiveBehaviour::Nothing)
    }

    /// Walks all trees, one after the other, and drops each tree whose walk
    /// ends in `Delete`. The first error ends the walk.
    pub fn dfs_mut<V: DfsVisitor<T>>(&mut self, visitor: &mut V) -> (r: Result<(), TuxDriveError>) where
        T: Default,

        requires
            has_fixed_default::<T>(),
        ensures
            ({
                let swept = sweep_trees::<T, V>(
                    old(self)@.trees,
                    0,
                    old(visitor)@,
                    default_payload::<T>(),
                );
                &&& final(self)@ == swept.forest
                &&& final(visitor)@ == swept.model
                &&& match r {
                    Ok(_) => swept.error is None,
                    Err(e) => swept.error == Some(e@),
                }
            }),
            old(self).wf() ==> final(self).wf(),
    {
        let ghost orig = self@.trees;
        proof {
            if self.wf() {
                lemma_sweep_trees_wf::<T, V>(self@.trees, 0, visitor@, default_payload::<T>());
            }
        }
        let ghost start = visitor@;
        let ghost fresh = default_payload::<T>();
        let ghost mut k: int = 0;
        let ghost mut done: Seq<TreeView<T>> = Seq::empty();
        let mut i: usize = 0;
        proof {
            let all = sweep_trees::<T, V>(orig, 0, start, fresh);
            assert(behind_trees(done, all).forest.trees =~= all.forest.trees);
        }
        while i < self.trees.len()
            invariant
                has_fixed_default::<T>(),
                fresh == default_payload::<T>(),
                start == old(visitor)@,
                orig == old(self)@.trees,
                old(self).wf() ==> sweep_trees::<T, V>(orig, 0, start, fresh).forest.wf(),
                0 <= i <= self.trees@.len(),
                i <= k,
                k + self.trees@.len() - i == orig.len(),
                done.len() == i,
                forall|j: int| 0 <= j < i ==> (#[trigger] self.trees@[j])@ == done[j],
                forall|j: int|
                    i <= j < self.trees@.len() ==> (#[trigger] self.trees@[j])@ == orig[j - i + k],
                sweep_trees::<T, V>(orig, 0, start, fresh) == behind_trees(
                    done,
                    sweep_trees::<T, V>(orig, k, visitor@, fresh),
                ),
            decreases self.trees@.len() - i,
        {
            let ghost model = visitor@;
            let ghost here = sweep_trees::<T, V>(orig, k, model, fresh);
            let ghost w = walk_tree::<T, V>(orig[k], model, fresh);
            let ghost walked = TreeView { node: w.node, ..orig[k] };
            assert(self.trees@[i as int]@ == orig[k]);
            let tree = &mut self.trees[i];
            let outcome = tree.dfs_mut(visitor);
            match outcome {
                Err(e) => {
                    proof {
                        assert(self@.trees =~= done + (seq![walked] + orig.subrange(
                            k + 1,
                            orig.len() as int,
                        )));
                    }
                    return Err(e);
                },
                Ok(RecursiveBehaviour::Delete) => {
                    self.trees.remove(i);
                    proof {
                        k = k + 1;
                    }
                },
                Ok(RecursiveBehaviour::Nothing) => {
                    proof {
                        let rest = sweep_trees::<T, V>(orig, k + 1, w.model, fresh);
                        assert(behind_trees(done, here).forest.trees =~= behind_trees(
                            done.push(walked),
                            rest,
                        ).forest.trees);
                        done = done.push(walked);
                        k = k + 1;
                    }
                    i += 1;
                },
            }
        }
        proof {
            let rest = sweep_trees::<T, V>(orig, k, visitor@, fresh);
            assert(self@.trees =~= done + rest.forest.trees);
        }
        Ok(())
    }
}

impl<T> PathForest<T> {
    /// Walks the tree with the root `root_path`, and drops it if its walk
    /// ends in `Delete`. Where there is no such tree, nothing happens.
    pub fn dfs_tree<V: DfsVisitor<T>>(&mut self, root_path: &AbsPath, visitor: &mut V) -> (r:
        Result<(), TuxDriveError>) where T: Default
        requires
            old(self).wf(),
            has_fixed_default::<T>(),
        ensures
            final(self).wf(),
            ({
                let walked = walk_one::<T, V>(
                    old(self)@,
                    root_path@,
                    old(visitor)@,
                    default_payload::<T>(),
                );
                &&& final(self)@ == walked.forest
                &&& final(visitor)@ == walked.model
                &&& match r {
                    Ok(_) => walked.error is None,
                    Err(e) => walked.error == Some(e@),
                }
            }),
    {
        let ghost before = self@;
        proof {
            lemma_walk_one_wf::<T, V>(before, root_path@, visitor@, default_payload::<T>());
        }
        match self.tree_index(root_path) {
            None => Ok(()),
            Some(i) => {
                let ghost tree = before.trees[i as int];
                assert(tree == self.trees@[i as int]@);
                let slot = &mut self.trees[i];
                let outcome = slot.dfs_mut(visitor);
                let ghost w = walk_tree::<T, V>(tree, old(visitor)@, default_payload::<T>());
                let ghost walked = TreeView { node: w.node, ..tree };
                proof {
                    before.lemma_position(root_path@, 0);
                    assert(self@.trees =~= before.trees.update(i as int, walked));
                    assert(before.tree(root_path@) == Some(tree));
                    assert(before.put_tree(walked).trees == before.trees.update(i as int, walked));
                    assert(before.drop_tree(root_path@).trees == before.trees.remove(i as int));
                }
                match outcome {
                    Err(e) => Err(e),
                    Ok(RecursiveBehaviour::Nothing) => Ok(()),
                    Ok(RecursiveBehaviour::Delete) => {
                        self.trees.remove(i);
                        assert(self@.trees =~= before.trees.remove(i as int));
                        Ok(())
                    },
                }
            },
        }
    }

    /// The paths of the roots of the trees, in the order of the trees.
    pub fn roots(&self) -> (roots: Vec<AbsPath>)
        ensures
            roots@.len() == self@.trees.len(),
            forall|i: int| 0 <= i < roots@.len() ==> (#[trigger] roots@[i])@ == self@.trees[i].root,
    {
        let mut roots: Vec<AbsPath> = Vec::with_capacity(self.trees.len());
        let mut i: usize = 0;
        while i < self.trees.len()
            invariant
                i <= self.trees@.len(),
                roots@.len() == i,
                forall|k: int| 0 <= k < i ==> (#[trigger] roots@[k])@ == self@.trees[k].root,
            decreases self.trees@.len() - i,
        {
            roots.push(self.trees[i].root_path());
            i += 1;
        }
        roots
    }
}

} // verus!
