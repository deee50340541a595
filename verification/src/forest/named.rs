//! Canonical paths in a forest: a forest whose roots are canonical and
//! whose nodes have names that can be components of a canonical path holds
//! canonical paths only, and adding canonical paths, removing paths and
//! walking keep it so.

use crate::disk::{DiskEntry, DiskNode, FileKind};
use crate::forest::model::{ForestView, NodeView, TreeView};
use crate::forest::scan::{
    list_entries, register_non_recursively, register_recursively, scan_dir, scan_entries, started,
};
use crate::forest::walk::{
    child_paths, name_or_empty, new_entries, sweep, walk, walk_one, walk_tree, Directive, NewEntry,
};
use crate::forest::{DfsVisitor, DirectoryAddOptions, RecursiveBehaviour};
use crate::path::{canonical, extends, valid_name};
use vstd::prelude::*;

verus! {

impl<T> NodeView<T> {
    /// Whether every node below this one has a name that can be a
    /// component of a canonical path.
    pub open spec fn well_named(self) -> bool
        decreases self,
    {
        forall|i: int|
            0 <= i < self.children.len() ==> ((#[trigger] self.children[i]).name matches Some(name)
                && valid_name(name)) && self.children[i].well_named()
    }

    /// The way to every node below a node whose nodes have canonical
    /// names is made of canonical names.
    pub proof fn lemma_held_is_canonical(self, rel: Seq<Seq<u8>>)
        requires
            self.well_named(),
            self.find(rel) is Some,
        ensures
            canonical(rel),
            self.find(rel).unwrap().well_named(),
        decreases rel.len(),
    {
        if rel.len() > 0 {
            Self::lemma_position(self.children, rel[0], 0);
            let i = Self::position(self.children, rel[0], 0).unwrap();
            self.children[i].lemma_held_is_canonical(rel.drop_first());
            assert forall|k: int| 0 <= k < rel.len() implies valid_name(#[trigger] rel[k]) by {
                if k > 0 {
                    assert(rel[k] == rel.drop_first()[k - 1]);
                }
            }
        }
    }

    /// A child with a canonical name and canonical names below it leaves
    /// the names canonical.
    pub proof fn lemma_put_child_named(self, child: Self)
        requires
            self.well_named(),
            child.well_named(),
            child.name matches Some(name) && valid_name(name),
        ensures
            self.put_child(child).well_named(),
    {
        let after = self.put_child(child);
        Self::lemma_position(self.children, child.name.unwrap(), 0);
        assert forall|i: int| 0 <= i < after.children.len() implies ((
        #[trigger] after.children[i]).name matches Some(name) && valid_name(name))
            && after.children[i].well_named() by {
            match Self::position(self.children, child.name.unwrap(), 0) {
                Some(k) => {
                    if i != k {
                        assert(after.children[i] == self.children[i]);
                    }
                },
                None => {
                    if i < self.children.len() {
                        assert(after.children[i] == self.children[i]);
                    }
                },
            }
        }
    }

    /// Adding a path of canonical names leaves the names canonical.
    pub proof fn lemma_with_path_named(self, rel: Seq<Seq<u8>>, info: T, is_dir: bool, fresh: T)
        requires
            self.well_named(),
            canonical(rel),
        ensures
            self.with_path(rel, info, is_dir, fresh).well_named(),
        decreases rel.len(),
    {
        if rel.len() > 0 {
            let rest = rel.drop_first();
            assert forall|k: int| 0 <= k < rest.len() implies valid_name(#[trigger] rest[k]) by {
                assert(rest[k] == rel[k + 1]);
            }
            let after = self.with_path(rel, info, is_dir, fresh);
            Self::lemma_position(self.children, rel[0], 0);
            match Self::position(self.children, rel[0], 0) {
                Some(i) => {
                    self.children[i].lemma_with_path_named(rest, info, is_dir, fresh);
                    self.children[i].lemma_with_path_name(rest, info, is_dir, fresh);
                    assert forall|k: int| 0 <= k < after.children.len() implies ((
                    #[trigger] after.children[k]).name matches Some(name) && valid_name(name))
                        && after.children[k].well_named() by {
                        if k != i {
                            assert(after.children[k] == self.children[k]);
                        }
                    }
                },
                None => {
                    let leaf = Self::leaf(Some(rel[0]), fresh, true);
                    leaf.lemma_with_path_named(rest, info, is_dir, fresh);
                    leaf.lemma_with_path_name(rest, info, is_dir, fresh);
                    assert forall|k: int| 0 <= k < after.children.len() implies ((
                    #[trigger] after.children[k]).name matches Some(name) && valid_name(name))
                        && after.children[k].well_named() by {
                        if k < self.children.len() {
                            assert(after.children[k] == self.children[k]);
                        }
                    }
                },
            }
        }
    }

    /// Removing a path leaves the names canonical.
    pub proof fn lemma_without_path_named(self, rel: Seq<Seq<u8>>)
        requires
            self.well_named(),
        ensures
            self.without_path(rel).well_named(),
        decreases rel.len(),
    {
        if rel.len() > 0 {
            let after = self.without_path(rel);
            Self::lemma_position(self.children, rel[0], 0);
            match Self::position(self.children, rel[0], 0) {
                Some(i) => {
                    if rel.len() == 1 {
                        assert forall|k: int| 0 <= k < after.children.len() implies ((
                        #[trigger] after.children[k]).name matches Some(name) && valid_name(name))
                            && after.children[k].well_named() by {
                            assert(after.children[k] == self.children[if k < i {
                                k
                            } else {
                                k + 1
                            }]);
                        }
                    } else {
                        self.children[i].lemma_without_path_named(rel.drop_first());
                        assert(self.children[i].without_path(rel.drop_first()).name
                            == self.children[i].name);
                        assert forall|k: int| 0 <= k < after.children.len() implies ((
                        #[trigger] after.children[k]).name matches Some(name) && valid_name(name))
                            && after.children[k].well_named() by {
                            if k != i {
                                assert(after.children[k] == self.children[k]);
                            }
                        }
                    }
                },
                None => {},
            }
        }
    }
}

/// A path that starts with a canonical path and goes on with canonical
/// names is canonical, and so is every path that a canonical path starts
/// with.
pub proof fn lemma_canonical_parts(path: Seq<Seq<u8>>, upper: Seq<Seq<u8>>)
    requires
        extends(path, upper),
    ensures
        canonical(path) == (canonical(upper) && canonical(path.skip(upper.len() as int))),
{
    let n = upper.len() as int;
    let rest = path.skip(n);
    if canonical(path) {
        assert forall|i: int| 0 <= i < upper.len() implies valid_name(#[trigger] upper[i]) by {
            assert(upper[i] == path.subrange(0, n)[i]);
        }
        assert forall|i: int| 0 <= i < rest.len() implies valid_name(#[trigger] rest[i]) by {
            assert(rest[i] == path[i + n]);
        }
    }
    if canonical(upper) && canonical(rest) {
        assert forall|i: int| 0 <= i < path.len() implies valid_name(#[trigger] path[i]) by {
            if i < n {
                assert(path[i] == path.subrange(0, n)[i]);
            } else {
                assert(path[i] == rest[i - n]);
            }
        }
    }
}

/// A canonical path with a canonical name behind it is canonical, and
/// starts with what the path started with.
pub proof fn lemma_canonical_push(dir: Seq<Seq<u8>>, name: Seq<u8>, root: Seq<Seq<u8>>)
    requires
        canonical(dir),
        valid_name(name),
        extends(dir, root),
    ensures
        canonical(dir.push(name)),
        extends(dir.push(name), root),
{
    assert(dir.push(name).subrange(0, root.len() as int) =~= dir.subrange(0, root.len() as int));
}

impl<T> TreeView<T> {
    /// Whether the root of the tree is canonical and every node has a name
    /// that can be a component of a canonical path.
    pub open spec fn canonical_paths(self) -> bool {
        canonical(self.root) && self.node.well_named()
    }

    /// Every path that such a tree holds is canonical.
    pub proof fn lemma_paths_are_canonical(self, path: Seq<Seq<u8>>)
        requires
            self.canonical_paths(),
            self.contains(path),
        ensures
            canonical(path),
    {
        self.node.lemma_held_is_canonical(path.skip(self.root.len() as int));
        lemma_canonical_parts(path, self.root);
    }
}

impl<T> ForestView<T> {
    /// Whether the root of every tree is canonical and every node has a
    /// name that can be a component of a canonical path.
    pub open spec fn canonical_paths(self) -> bool {
        forall|i: int| 0 <= i < self.trees.len() ==> (#[trigger] self.trees[i]).canonical_paths()
    }

    /// Every path that such a forest holds is canonical.
    pub proof fn lemma_paths_are_canonical(self, root: Seq<Seq<u8>>, path: Seq<Seq<u8>>)
        requires
            self.canonical_paths(),
            self.entry(root, path) is Some,
        ensures
            canonical(path),
    {
        self.lemma_position(root, 0);
        self.tree(root).unwrap().lemma_paths_are_canonical(path);
    }

    /// A tree of canonical paths, put into a forest of canonical paths,
    /// leaves a forest of canonical paths.
    pub proof fn lemma_put_tree_canonical(self, tree: TreeView<T>)
        requires
            self.canonical_paths(),
            tree.canonical_paths(),
        ensures
            self.put_tree(tree).canonical_paths(),
    {
        let after = self.put_tree(tree);
        self.lemma_position(tree.root, 0);
        assert forall|i: int| 0 <= i < after.trees.len() implies (
        #[trigger] after.trees[i]).canonical_paths() by {
            match self.position(tree.root, 0) {
                Some(k) => {
                    if i != k {
                        assert(after.trees[i] == self.trees[i]);
                    }
                },
                None => {
                    if i < self.trees.len() {
                        assert(after.trees[i] == self.trees[i]);
                    }
                },
            }
        }
    }

    /// A forest of canonical paths without one of its trees is a forest of
    /// canonical paths.
    pub proof fn lemma_drop_tree_canonical(self, root: Seq<Seq<u8>>)
        requires
            self.canonical_paths(),
        ensures
            self.drop_tree(root).canonical_paths(),
    {
        let after = self.drop_tree(root);
        self.lemma_position(root, 0);
        assert forall|i: int| 0 <= i < after.trees.len() implies (
        #[trigger] after.trees[i]).canonical_paths() by {
            match self.position(root, 0) {
                Some(k) => {
                    assert(after.trees[i] == self.trees[if i < k {
                        i
                    } else {
                        i + 1
                    }]);
                },
                None => {},
            }
        }
    }

    /// A canonical path, added to a forest of canonical paths, leaves a
    /// forest of canonical paths.
    pub proof fn lemma_with_path_canonical(
        self,
        root: Seq<Seq<u8>>,
        path: Seq<Seq<u8>>,
        info: T,
        is_dir: bool,
        fresh: T,
    )
        requires
            self.canonical_paths(),
            canonical(path),
            extends(path, root),
        ensures
            self.with_path(root, path, info, is_dir, fresh).canonical_paths(),
    {
        let base = self.tree_or_single(root, fresh);
        self.lemma_position(root, 0);
        lemma_canonical_parts(path, root);
        assert(base.canonical_paths());
        base.node.lemma_with_path_named(path.skip(root.len() as int), info, is_dir, fresh);
        self.lemma_put_tree_canonical(base.with_path(path, info, is_dir, fresh));
    }

    /// A forest of canonical paths from which a path is removed is a
    /// forest of canonical paths.
    pub proof fn lemma_without_path_canonical(self, root: Seq<Seq<u8>>, path: Seq<Seq<u8>>)
        requires
            self.canonical_paths(),
        ensures
            self.without_path(root, path).canonical_paths(),
    {
        self.lemma_position(root, 0);
        match self.tree(root) {
            Some(tree) => {
                if path.len() <= root.len() {
                    self.lemma_drop_tree_canonical(root);
                } else {
                    tree.node.lemma_without_path_named(path.skip(root.len() as int));
                    self.lemma_put_tree_canonical(tree.without_path(path));
                }
            },
            None => {},
        }
    }
}

/// Reading a directory with canonical names, at a canonical path, into a
/// forest of canonical paths leaves a forest of canonical paths.
pub proof fn lemma_scan_dir_canonical<T>(
    forest: ForestView<T>,
    root: Seq<Seq<u8>>,
    dir: Seq<Seq<u8>>,
    disk: DiskNode,
    options: DirectoryAddOptions,
    fresh: T,
)
    requires
        forest.canonical_paths(),
        canonical(dir),
        extends(dir, root),
        disk.well_named(),
    ensures
        scan_dir(forest, root, dir, disk, options, fresh).forest.canonical_paths(),
    decreases disk, 1nat, 0nat,
{
    if disk.listing is Ok {
        lemma_scan_entries_canonical(forest, root, dir, disk, 0, options, fresh);
    }
}

/// Reading the items of a listing with canonical names, of a directory at
/// a canonical path, into a forest of canonical paths leaves a forest of
/// canonical paths.
pub proof fn lemma_scan_entries_canonical<T>(
    forest: ForestView<T>,
    root: Seq<Seq<u8>>,
    dir: Seq<Seq<u8>>,
    disk: DiskNode,
    from: int,
    options: DirectoryAddOptions,
    fresh: T,
)
    requires
        forest.canonical_paths(),
        canonical(dir),
        extends(dir, root),
        disk.well_named(),
        disk.listing is Ok,
        0 <= from,
    ensures
        scan_entries(
            forest,
            root,
            dir,
            disk.listing->Ok_0@,
            from,
            options,
            fresh,
        ).forest.canonical_paths(),
    decreases disk, 0nat, disk.listing->Ok_0@.len() - from,
{
    let entries = disk.listing->Ok_0@;
    if from < entries.len() {
        match entries[from] {
            DiskEntry::Failed(failure) => {
                lemma_scan_entries_canonical(forest, root, dir, disk, from + 1, options, fresh);
            },
            DiskEntry::Found { name, node } => {
                let path = dir.push(name@);
                lemma_canonical_push(dir, name@, root);
                match node.kind {
                    Ok(FileKind::Regular) => {
                        let added = forest.with_path(root, path, fresh, false, fresh);
                        forest.lemma_with_path_canonical(root, path, fresh, false, fresh);
                        lemma_scan_entries_canonical(
                            added,
                            root,
                            dir,
                            disk,
                            from + 1,
                            options,
                            fresh,
                        );
                    },
                    Ok(FileKind::Directory) => {
                        let added = forest.with_path(root, path, fresh, true, fresh);
                        forest.lemma_with_path_canonical(root, path, fresh, true, fresh);
                        lemma_scan_dir_canonical(added, root, path, node, options, fresh);
                        let below = scan_dir(added, root, path, node, options, fresh);
                        below.forest.lemma_without_path_canonical(root, path);
                        lemma_scan_entries_canonical(
                            below.forest.without_path(root, path),
                            root,
                            dir,
                            disk,
                            from + 1,
                            options,
                            fresh,
                        );
                        lemma_scan_entries_canonical(
                            below.forest,
                            root,
                            dir,
                            disk,
                            from + 1,
                            options,
                            fresh,
                        );
                    },
                    _ => {
                        lemma_scan_entries_canonical(
                            forest,
                            root,
                            dir,
                            disk,
                            from + 1,
                            options,
                            fresh,
                        );
                    },
                }
            },
        }
    }
}

/// Adding the items of a listing with canonical names, of a directory at
/// a canonical path, to a forest of canonical paths leaves a forest of
/// canonical paths.
pub proof fn lemma_list_entries_canonical<T>(
    forest: ForestView<T>,
    dir: Seq<Seq<u8>>,
    entries: Seq<DiskEntry>,
    from: int,
    fresh: T,
)
    requires
        forest.canonical_paths(),
        canonical(dir),
        0 <= from,
        forall|i: int|
            0 <= i < entries.len() && (#[trigger] entries[i]) is Found ==> valid_name(
                entries[i]->name@,
            ),
    ensures
        list_entries(forest, dir, entries, from, fresh).forest.canonical_paths(),
    decreases entries.len() - from,
{
    if from < entries.len() {
        assert(dir.subrange(0, dir.len() as int) =~= dir);
        match entries[from] {
            DiskEntry::Failed(failure) => {
                lemma_list_entries_canonical(forest, dir, entries, from + 1, fresh);
            },
            DiskEntry::Found { name, node } => {
                let path = dir.push(name@);
                lemma_canonical_push(dir, name@, dir);
                match node.kind {
                    Ok(FileKind::Regular) => {
                        forest.lemma_with_path_canonical(dir, path, fresh, false, fresh);
                        lemma_list_entries_canonical(
                            forest.with_path(dir, path, fresh, false, fresh),
                            dir,
                            entries,
                            from + 1,
                            fresh,
                        );
                    },
                    Ok(FileKind::Directory) => {
                        forest.lemma_with_path_canonical(dir, path, fresh, true, fresh);
                        lemma_list_entries_canonical(
                            forest.with_path(dir, path, fresh, true, fresh),
                            dir,
                            entries,
                            from + 1,
                            fresh,
                        );
                    },
                    _ => {
                        lemma_list_entries_canonical(forest, dir, entries, from + 1, fresh);
                    },
                }
            },
        }
    }
}

/// Registering a directory at a canonical path, found with canonical
/// names, in a forest of canonical paths leaves a forest of canonical
/// paths, with all below the directory or with its own entries only, and
/// whether or not an error ends the registration.
pub proof fn lemma_registered_is_canonical<T>(
    forest: ForestView<T>,
    dir: Seq<Seq<u8>>,
    disk: DiskNode,
    options: DirectoryAddOptions,
    fresh: T,
)
    requires
        forest.canonical_paths(),
        canonical(dir),
        disk.well_named(),
    ensures
        register_recursively(forest, dir, disk, options, fresh).forest.canonical_paths(),
        register_non_recursively(forest, dir, disk, fresh).forest.canonical_paths(),
{
    let first = started(forest, dir, fresh);
    assert(TreeView::single(dir, fresh).canonical_paths());
    forest.lemma_put_tree_canonical(TreeView::single(dir, fresh));
    assert(dir.subrange(0, dir.len() as int) =~= dir);
    lemma_scan_dir_canonical(first, dir, dir, disk, options, fresh);
    scan_dir(first, dir, dir, disk, options, fresh).forest.lemma_without_path_canonical(dir, dir);
    if disk.listing is Ok {
        lemma_list_entries_canonical(first, dir, disk.listing->Ok_0@, 0, fresh);
    }
}

/// Whether every entry of `new` that has a name has one that can be a
/// component of a canonical path.
pub open spec fn named(new: Seq<NewEntry>) -> bool {
    forall|j: int|
        0 <= j < new.len() && (#[trigger] new[j]).path.len() > 0 ==> valid_name(new[j].path.last())
}

/// The entries that a visit wants added, none where it ends in an error.
pub open spec fn wanted<E>(outcome: Result<Directive, E>) -> Seq<NewEntry> {
    match outcome {
        Ok(directive) => new_entries(directive),
        Err(_) => Seq::empty(),
    }
}

impl<T> NodeView<T> {
    /// New children with canonical names leave the names canonical, and
    /// the name of the node as it is.
    pub proof fn lemma_with_new_named(self, new: Seq<NewEntry>, fresh: T)
        requires
            self.well_named(),
            named(new),
        ensures
            self.with_new(new, fresh).well_named(),
            self.with_new(new, fresh).name == self.name,
        decreases new.len(),
    {
        if new.len() > 0 {
            let before = self.with_new(new.drop_last(), fresh);
            assert forall|j: int|
                0 <= j < new.drop_last().len() && (#[trigger] new.drop_last()[j]).path.len()
                    > 0 implies valid_name(new.drop_last()[j].path.last()) by {
                assert(new.drop_last()[j] == new[j]);
            }
            self.lemma_with_new_named(new.drop_last(), fresh);
            if new.last().path.len() > 0 {
                let child = Self::leaf(Some(new.last().path.last()), fresh, new.last().is_dir);
                before.lemma_put_child_named(child);
            }
        }
    }
}

/// A walk leaves the names canonical where the visitor, shown canonical
/// paths, asks only for entries with canonical names; and what the visits
/// at canonical paths keep of the visitor, the walk keeps.
pub proof fn lemma_walk_named<T, V: DfsVisitor<T>>(
    node: NodeView<T>,
    path: Seq<Seq<u8>>,
    model: V::V,
    fresh: T,
    kept: spec_fn(V::V) -> bool,
)
    requires
        node.well_named(),
        canonical(path),
        kept(model),
        forall|m: V::V, p: Seq<Seq<u8>>, c: Seq<Seq<Seq<u8>>>, i: T, d: bool|
            canonical(p) && kept(m) ==> kept(#[trigger] V::step(m, p, c, i, d).model),
        forall|m: V::V, p: Seq<Seq<u8>>, c: Seq<Seq<Seq<u8>>>, i: T, d: bool|
            canonical(p) && kept(m) ==> named(wanted(#[trigger] V::step(m, p, c, i, d).outcome)),
    ensures
        walk::<T, V>(node, path, model, fresh).node.well_named(),
        walk::<T, V>(node, path, model, fresh).node.name == node.name,
        kept(walk::<T, V>(node, path, model, fresh).model),
    decreases node, 0nat,
{
    let step = V::step(model, path, child_paths(node, path), node.info, node.is_dir);
    let seen = NodeView { info: step.info, ..node };
    assert(seen.well_named());
    match step.outcome {
        Err(e) => {},
        Ok(Directive::Stop) => {},
        Ok(Directive::Delete) => {},
        Ok(Directive::AddAndStop(new)) => {
            seen.lemma_with_new_named(new, fresh);
        },
        Ok(directive) => {
            lemma_sweep_named::<T, V>(node.children, 0, path, step.model, fresh, kept);
            let below = sweep::<T, V>(node.children, 0, path, step.model, fresh);
            let swept = NodeView { children: below.children, ..seen };
            assert(swept.well_named());
            swept.lemma_with_new_named(new_entries(directive), fresh);
        },
    }
}

/// A walk of children with canonical names leaves children with
/// canonical names, under the same conditions.
pub proof fn lemma_sweep_named<T, V: DfsVisitor<T>>(
    children: Seq<NodeView<T>>,
    from: int,
    path: Seq<Seq<u8>>,
    model: V::V,
    fresh: T,
    kept: spec_fn(V::V) -> bool,
)
    requires
        0 <= from,
        forall|i: int|
            0 <= i < children.len() ==> ((#[trigger] children[i]).name matches Some(name)
                && valid_name(name)) && children[i].well_named(),
        canonical(path),
        kept(model),
        forall|m: V::V, p: Seq<Seq<u8>>, c: Seq<Seq<Seq<u8>>>, i: T, d: bool|
            canonical(p) && kept(m) ==> kept(#[trigger] V::step(m, p, c, i, d).model),
        forall|m: V::V, p: Seq<Seq<u8>>, c: Seq<Seq<Seq<u8>>>, i: T, d: bool|
            canonical(p) && kept(m) ==> named(wanted(#[trigger] V::step(m, p, c, i, d).outcome)),
    ensures
        ({
            let left = sweep::<T, V>(children, from, path, model, fresh).children;
            forall|i: int|
                0 <= i < left.len() ==> ((#[trigger] left[i]).name matches Some(name) && valid_name(
                    name,
                )) && left[i].well_named()
        }),
        kept(sweep::<T, V>(children, from, path, model, fresh).model),
    decreases children, children.len() - from,
{
    if from < children.len() {
        let here = children[from];
        let at = path.push(name_or_empty(here.name));
        let w = walk::<T, V>(here, at, model, fresh);
        let left = sweep::<T, V>(children, from, path, model, fresh).children;
        lemma_walk_named::<T, V>(here, at, model, fresh, kept);
        match w.result {
            Err(e) => {
                assert forall|i: int| 0 <= i < left.len() implies ((
                #[trigger] left[i]).name matches Some(name) && valid_name(name))
                    && left[i].well_named() by {
                    if i > 0 {
                        assert(left[i] == children[from + i]);
                    }
                }
            },
            Ok(RecursiveBehaviour::Delete) => {
                lemma_sweep_named::<T, V>(children, from + 1, path, w.model, fresh, kept);
            },
            Ok(RecursiveBehaviour::Nothing) => {
                lemma_sweep_named::<T, V>(children, from + 1, path, w.model, fresh, kept);
                let rest = sweep::<T, V>(children, from + 1, path, w.model, fresh).children;
                assert forall|i: int| 0 <= i < left.len() implies ((
                #[trigger] left[i]).name matches Some(name) && valid_name(name))
                    && left[i].well_named() by {
                    if i > 0 {
                        assert(left[i] == rest[i - 1]);
                    }
                }
            },
        }
    }
}

/// The walk of one tree of a forest of canonical paths leaves a forest of
/// canonical paths, under the same conditions.
pub proof fn lemma_walk_one_named<T, V: DfsVisitor<T>>(
    forest: ForestView<T>,
    root: Seq<Seq<u8>>,
    model: V::V,
    fresh: T,
    kept: spec_fn(V::V) -> bool,
)
    requires
        forest.canonical_paths(),
        kept(model),
        forall|m: V::V, p: Seq<Seq<u8>>, c: Seq<Seq<Seq<u8>>>, i: T, d: bool|
            canonical(p) && kept(m) ==> kept(#[trigger] V::step(m, p, c, i, d).model),
        forall|m: V::V, p: Seq<Seq<u8>>, c: Seq<Seq<Seq<u8>>>, i: T, d: bool|
            canonical(p) && kept(m) ==> named(wanted(#[trigger] V::step(m, p, c, i, d).outcome)),
    ensures
        walk_one::<T, V>(forest, root, model, fresh).forest.canonical_paths(),
        kept(walk_one::<T, V>(forest, root, model, fresh).model),
{
    forest.lemma_position(root, 0);
    match forest.tree(root) {
        Some(tree) => {
            let w = walk_tree::<T, V>(tree, model, fresh);
            lemma_walk_named::<T, V>(tree.node, tree.root, model, fresh, kept);
            forest.lemma_put_tree_canonical(TreeView { node: w.node, ..tree });
            forest.lemma_drop_tree_canonical(root);
        },
        None => {},
    }
}

} // verus!
