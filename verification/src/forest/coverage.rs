//! What a registration leaves in the forest: the directory that was
//! registered, and the regular files and directories that were found
//! below it.

use crate::disk::{distinct_names, listed_in, mirrored_in, DiskEntry, DiskNode, FileKind};
use crate::error::{ErrorView, IoFailure};
use crate::forest::model::{lemma_extends_chain, Entry, ForestView, NodeView, TreeView};
use crate::forest::scan::{
    list_entries, register_non_recursively, register_recursively, scan_dir, scan_entries,
    started,
};
use crate::forest::{DirectoryAddOptions, RecursiveBehaviour};
use crate::path::extends;
use vstd::prelude::*;

verus! {

/// What a tree records about a mirrored path right after the registration:
/// the payload `fresh`, and whether the path is a directory.
pub open spec fn mirror_entry<T>(mirrored: Option<bool>, fresh: T) -> Option<Entry<T>> {
    match mirrored {
        Some(is_dir) => Some(Entry { info: fresh, is_dir }),
        None => None,
    }
}

/// `q` lies below `dir`, and is not `dir` itself.
pub open spec fn below(q: Seq<Seq<u8>>, dir: Seq<Seq<u8>>) -> bool {
    extends(q, dir) && q.len() > dir.len()
}

/// The tree with the root `root` holds `dir` as a directory with the
/// payload `fresh`.
pub open spec fn holds_dir<T>(
    forest: ForestView<T>,
    root: Seq<Seq<u8>>,
    dir: Seq<Seq<u8>>,
    fresh: T,
) -> bool {
    &&& forest.wf()
    &&& forest.has_root(root)
    &&& extends(dir, root)
    &&& forest.entry(root, dir) == Some(Entry { info: fresh, is_dir: true })
}

/// The tree with the root `root` holds `dir`, and below it what the first
/// `upto` items of the listing give, with all that lies below them.
pub open spec fn filled<T>(
    forest: ForestView<T>,
    root: Seq<Seq<u8>>,
    dir: Seq<Seq<u8>>,
    entries: Seq<DiskEntry>,
    upto: int,
    fresh: T,
) -> bool {
    &&& holds_dir(forest, root, dir, fresh)
    &&& forall|q: Seq<Seq<u8>>|
        below(q, dir) ==> #[trigger] forest.entry(root, q) == mirror_entry(
            mirrored_in(entries, upto, q.skip(dir.len() as int)),
            fresh,
        )
}

/// The tree with the root `root` holds `dir`, and below it the entries
/// that the first `upto` items of the listing give, and no more.
pub open spec fn lined<T>(
    forest: ForestView<T>,
    root: Seq<Seq<u8>>,
    dir: Seq<Seq<u8>>,
    entries: Seq<DiskEntry>,
    upto: int,
    fresh: T,
) -> bool {
    &&& holds_dir(forest, root, dir, fresh)
    &&& forall|q: Seq<Seq<u8>>|
        below(q, dir) ==> #[trigger] forest.entry(root, q) == mirror_entry(
            listed_in(entries, upto, q.skip(dir.len() as int)),
            fresh,
        )
}

/// Outside of what lies below `dir`, the forest `after` is what `before`
/// was.
pub open spec fn same_outside<T>(
    before: ForestView<T>,
    after: ForestView<T>,
    root: Seq<Seq<u8>>,
    dir: Seq<Seq<u8>>,
) -> bool {
    &&& forall|other: Seq<Seq<u8>>|
        other != root ==> #[trigger] after.tree(other) == before.tree(other)
    &&& forall|q: Seq<Seq<u8>>|
        extends(q, root) && !below(q, dir) ==> #[trigger] after.entry(root, q) == before.entry(
            root,
            q,
        )
}

/// A path directly below `dir`, and what follows it.
proof fn lemma_below_child(q: Seq<Seq<u8>>, dir: Seq<Seq<u8>>, name: Seq<u8>)
    requires
        below(q, dir),
    ensures
        extends(q, dir.push(name)) <==> q.skip(dir.len() as int)[0] == name,
        extends(q, dir.push(name)) ==> q.skip(dir.len() as int).drop_first() == q.skip(
            dir.len() as int + 1,
        ),
        q == dir.push(name) <==> q.skip(dir.len() as int) == seq![name],
        extends(dir.push(name), dir),
        dir.push(name).skip(dir.len() as int) == seq![name],
{
    let n = dir.len() as int;
    let p = dir.push(name);
    assert(q.subrange(0, n) == dir);
    assert(p.subrange(0, n) =~= dir);
    assert(p.skip(n) =~= seq![name]);
    assert(q.skip(n).drop_first() =~= q.skip(n + 1));
    if extends(q, p) {
        assert(q.subrange(0, n + 1)[n] == name);
    }
    if q.skip(n)[0] == name {
        assert(q.subrange(0, n + 1) =~= p);
    }
    if q.skip(n) == seq![name] {
        assert(q =~= q.subrange(0, n) + q.skip(n));
        assert(p =~= dir + seq![name]);
    }
}

/// The entry of a listing that stands first under its name is the one that
/// is found under that name.
pub proof fn lemma_first_entry(entries: Seq<DiskEntry>, i: int)
    requires
        0 <= i < entries.len(),
        entries[i] is Found,
        distinct_names(entries),
    ensures
        DiskNode::position(entries, entries[i]->name@, 0) == Some(i),
{
    let name = entries[i]->name@;
    DiskNode::lemma_position(entries, name, 0);
    match DiskNode::position(entries, name, 0) {
        Some(k) => {
            if k < i {
                assert(entries[k]->name@ != entries[i]->name@);
            }
        },
        None => {
            assert(entries[i].is_named(name));
        },
    }
}

/// A tree that holds what the items before `from` give holds nothing at
/// or below the entry that stands at `from`.
proof fn lemma_next_is_missing<T>(
    forest: ForestView<T>,
    root: Seq<Seq<u8>>,
    dir: Seq<Seq<u8>>,
    entries: Seq<DiskEntry>,
    from: int,
    fresh: T,
)
    requires
        0 <= from < entries.len(),
        entries[from] is Found,
        distinct_names(entries),
        filled(forest, root, dir, entries, from, fresh) || lined(
            forest,
            root,
            dir,
            entries,
            from,
            fresh,
        ),
    ensures
        forall|q: Seq<Seq<u8>>|
            extends(q, dir.push(entries[from]->name@)) ==> #[trigger] forest.entry(root, q) is None,
{
    let name = entries[from]->name@;
    let path = dir.push(name);
    lemma_first_entry(entries, from);
    assert forall|q: Seq<Seq<u8>>| extends(q, path) implies #[trigger] forest.entry(root, q) is None by {
        assert(extends(path, dir)) by {
            assert(path.subrange(0, dir.len() as int) =~= dir);
        }
        lemma_extends_chain(q, path, dir);
        assert(below(q, dir));
        lemma_below_child(q, dir, name);
        let rel = q.skip(dir.len() as int);
        if filled(forest, root, dir, entries, from, fresh) {
            assert(forest.entry(root, q) == mirror_entry(mirrored_in(entries, from, rel), fresh));
        } else {
            assert(forest.entry(root, q) == mirror_entry(listed_in(entries, from, rel), fresh));
        }
    }
}

/// After the entry `name` of `dir`, of which the tree held nothing, was
/// added, the tree holds that entry, nothing below it, and all else as
/// before.
proof fn lemma_entry_added<T>(
    forest: ForestView<T>,
    root: Seq<Seq<u8>>,
    dir: Seq<Seq<u8>>,
    name: Seq<u8>,
    is_dir: bool,
    fresh: T,
)
    requires
        holds_dir(forest, root, dir, fresh),
        forall|q: Seq<Seq<u8>>|
            extends(q, dir.push(name)) ==> #[trigger] forest.entry(root, q) is None,
    ensures
        ({
            let path = dir.push(name);
            let added = forest.with_path(root, path, fresh, is_dir, fresh);
            &&& holds_dir(added, root, dir, fresh)
            &&& extends(path, dir)
            &&& extends(path, root)
            &&& same_outside(forest, added, root, dir)
            &&& added.entry(root, path) == Some(Entry { info: fresh, is_dir })
            &&& forall|q: Seq<Seq<u8>>| below(q, path) ==> #[trigger] added.entry(root, q) is None
            &&& forall|q: Seq<Seq<u8>>|
                below(q, dir) && !extends(q, path) ==> #[trigger] added.entry(root, q)
                    == forest.entry(root, q)
        }),
{
    let n = dir.len() as int;
    let path = dir.push(name);
    let added = forest.with_path(root, path, fresh, is_dir, fresh);
    forest.lemma_position(root, 0);
    let tree = forest.tree(root).unwrap();
    assert(extends(path, dir) && extends(path, root)) by {
        assert(path.subrange(0, n) =~= dir);
        lemma_extends_chain(path, dir, root);
    }
    forest.lemma_with_path(root, path, fresh, is_dir, fresh);
    assert(forest.tree_or_single(root, fresh) == tree);
    assert forall|q: Seq<Seq<u8>>| extends(q, root) implies #[trigger] added.entry(root, q) == (
    if q == path {
        Some(Entry { info: fresh, is_dir })
    } else if extends(q, path) {
        None
    } else {
        forest.entry(root, q)
    }) by {
        if q != path && !extends(q, path) && extends(path, q) {
            assert(extends(dir, q)) by {
                if q.len() == path.len() {
                    assert(path.subrange(0, q.len() as int) =~= path);
                }
                assert(q.len() <= n);
                assert(dir.subrange(0, q.len() as int) =~= path.subrange(0, q.len() as int));
            }
            tree.lemma_holds_ancestors(dir, q);
        }
    }
    assert(!extends(dir, path));
    assert forall|q: Seq<Seq<u8>>| below(q, path) implies #[trigger] added.entry(root, q) is None by {
        lemma_extends_chain(q, path, root);
    }
    assert forall|q: Seq<Seq<u8>>|
        below(q, dir) && !extends(q, path) implies #[trigger] added.entry(root, q)
        == forest.entry(root, q) by {
        lemma_extends_chain(q, dir, root);
        assert(extends(path, path)) by {
            assert(path.subrange(0, path.len() as int) =~= path);
        }
        assert(q != path);
    }
    assert forall|q: Seq<Seq<u8>>|
        extends(q, root) && !below(q, dir) implies #[trigger] added.entry(root, q)
        == forest.entry(root, q) by {
        if extends(q, path) {
            lemma_extends_chain(q, path, dir);
        }
    }
}

/// An item that is passed over leaves the tree filled as before.
proof fn lemma_skipped<T>(
    forest: ForestView<T>,
    root: Seq<Seq<u8>>,
    dir: Seq<Seq<u8>>,
    entries: Seq<DiskEntry>,
    from: int,
    fresh: T,
)
    requires
        0 <= from < entries.len(),
        match entries[from] {
            DiskEntry::Failed(_) => true,
            DiskEntry::Found { name, node } => node.kind != Ok::<FileKind, IoFailure>(
                FileKind::Regular,
            ) && node.kind != Ok::<FileKind, IoFailure>(FileKind::Directory),
        },
    ensures
        filled(forest, root, dir, entries, from, fresh) ==> filled(
            forest,
            root,
            dir,
            entries,
            from + 1,
            fresh,
        ),
        lined(forest, root, dir, entries, from, fresh) ==> lined(
            forest,
            root,
            dir,
            entries,
            from + 1,
            fresh,
        ),
{
    if filled(forest, root, dir, entries, from, fresh) {
        assert forall|q: Seq<Seq<u8>>| below(q, dir) implies #[trigger] forest.entry(root, q)
            == mirror_entry(mirrored_in(entries, from + 1, q.skip(dir.len() as int)), fresh) by {
            let rel = q.skip(dir.len() as int);
            DiskNode::lemma_position(entries, rel[0], 0);
            assert(forest.entry(root, q) == mirror_entry(mirrored_in(entries, from, rel), fresh));
        }
    }
    if lined(forest, root, dir, entries, from, fresh) {
        assert forall|q: Seq<Seq<u8>>| below(q, dir) implies #[trigger] forest.entry(root, q)
            == mirror_entry(listed_in(entries, from + 1, q.skip(dir.len() as int)), fresh) by {
            let rel = q.skip(dir.len() as int);
            DiskNode::lemma_position(entries, rel[0], 0);
            assert(forest.entry(root, q) == mirror_entry(listed_in(entries, from, rel), fresh));
        }
    }
}

/// What the items up to `from` give for a path that does not lie at or
/// below the entry at `from` is what the items before `from` give for it.
proof fn lemma_beside_entry(
    dir: Seq<Seq<u8>>,
    entries: Seq<DiskEntry>,
    from: int,
    q: Seq<Seq<u8>>,
)
    requires
        0 <= from < entries.len(),
        entries[from] is Found,
        below(q, dir),
        !extends(q, dir.push(entries[from]->name@)),
    ensures
        mirrored_in(entries, from + 1, q.skip(dir.len() as int)) == mirrored_in(
            entries,
            from,
            q.skip(dir.len() as int),
        ),
        listed_in(entries, from + 1, q.skip(dir.len() as int)) == listed_in(
            entries,
            from,
            q.skip(dir.len() as int),
        ),
{
    let rel = q.skip(dir.len() as int);
    lemma_below_child(q, dir, entries[from]->name@);
    DiskNode::lemma_position(entries, rel[0], 0);
}

/// Reading a directory that could be listed, with all below it, into a
/// tree that holds the directory and nothing below it, fills the tree with
/// what is mirrored below the directory and changes nothing else.
pub proof fn lemma_scan_dir<T>(
    forest: ForestView<T>,
    root: Seq<Seq<u8>>,
    dir: Seq<Seq<u8>>,
    disk: DiskNode,
    options: DirectoryAddOptions,
    fresh: T,
)
    requires
        holds_dir(forest, root, dir, fresh),
        forall|q: Seq<Seq<u8>>| below(q, dir) ==> #[trigger] forest.entry(root, q) is None,
        disk.listing is Ok,
        disk.names_unique(),
        scan_dir(forest, root, dir, disk, options, fresh).outcome is Ok,
    ensures
        ({
            let scan = scan_dir(forest, root, dir, disk, options, fresh);
            &&& scan.outcome == Ok::<RecursiveBehaviour, ErrorView>(RecursiveBehaviour::Nothing)
            &&& holds_dir(scan.forest, root, dir, fresh)
            &&& same_outside(forest, scan.forest, root, dir)
            &&& forall|q: Seq<Seq<u8>>|
                extends(q, dir) ==> #[trigger] scan.forest.entry(root, q) == mirror_entry(
                    disk.mirrored(q.skip(dir.len() as int)),
                    fresh,
                )
        }),
    decreases disk, disk.listing->Ok_0@.len() + 2,
{
    let entries = disk.listing->Ok_0@;
    assert(filled(forest, root, dir, entries, 0, fresh)) by {
        assert forall|q: Seq<Seq<u8>>| below(q, dir) implies #[trigger] forest.entry(root, q)
            == mirror_entry(mirrored_in(entries, 0, q.skip(dir.len() as int)), fresh) by {
            DiskNode::lemma_position(entries, q.skip(dir.len() as int)[0], 0);
        }
    }
    lemma_scan_entries(forest, root, dir, disk, entries, 0, options, fresh);
    let scan = scan_dir(forest, root, dir, disk, options, fresh);
    assert forall|q: Seq<Seq<u8>>| extends(q, dir) implies #[trigger] scan.forest.entry(root, q)
        == mirror_entry(disk.mirrored(q.skip(dir.len() as int)), fresh) by {
        if q.len() == dir.len() {
            assert(q =~= dir) by {
                assert(q.subrange(0, dir.len() as int) =~= q);
            }
        }
    }
}

/// Reading the items of a listing from `from` on into a tree that is
/// filled from the items before leaves the tree filled from all items, and
/// changes nothing else.
pub proof fn lemma_scan_entries<T>(
    forest: ForestView<T>,
    root: Seq<Seq<u8>>,
    dir: Seq<Seq<u8>>,
    disk: DiskNode,
    entries: Seq<DiskEntry>,
    from: int,
    options: DirectoryAddOptions,
    fresh: T,
)
    requires
        0 <= from <= entries.len(),
        disk.listing is Ok,
        entries == disk.listing->Ok_0@,
        disk.names_unique(),
        filled(forest, root, dir, entries, from, fresh),
        scan_entries(forest, root, dir, entries, from, options, fresh).outcome is Ok,
    ensures
        ({
            let scan = scan_entries(forest, root, dir, entries, from, options, fresh);
            &&& scan.outcome == Ok::<RecursiveBehaviour, ErrorView>(RecursiveBehaviour::Nothing)
            &&& filled(scan.forest, root, dir, entries, entries.len() as int, fresh)
            &&& same_outside(forest, scan.forest, root, dir)
        }),
    decreases disk, entries.len() - from + 1,
{
    if from < entries.len() {
        let next = lemma_scan_entry(forest, root, dir, disk, entries, from, options, fresh);
        lemma_scan_entries(next, root, dir, disk, entries, from + 1, options, fresh);
    }
}

/// Reading one item of a listing into a tree that is filled from the
/// items before leaves the tree filled from the items up to this one, and
/// changes nothing else. The forest that the reading goes on with is
/// returned.
pub proof fn lemma_scan_entry<T>(
    forest: ForestView<T>,
    root: Seq<Seq<u8>>,
    dir: Seq<Seq<u8>>,
    disk: DiskNode,
    entries: Seq<DiskEntry>,
    from: int,
    options: DirectoryAddOptions,
    fresh: T,
) -> (next: ForestView<T>)
    requires
        0 <= from < entries.len(),
        disk.listing is Ok,
        entries == disk.listing->Ok_0@,
        disk.names_unique(),
        filled(forest, root, dir, entries, from, fresh),
        scan_entries(forest, root, dir, entries, from, options, fresh).outcome is Ok,
    ensures
        scan_entries(forest, root, dir, entries, from, options, fresh) == scan_entries(
            next,
            root,
            dir,
            entries,
            from + 1,
            options,
            fresh,
        ),
        filled(next, root, dir, entries, from + 1, fresh),
        same_outside(forest, next, root, dir),
    decreases disk, entries.len() - from,
{
    match entries[from] {
        DiskEntry::Failed(failure) => {
            lemma_skipped(forest, root, dir, entries, from, fresh);
            forest
        },
        DiskEntry::Found { name, node } => {
            let path = dir.push(name@);
            match node.kind {
                Ok(FileKind::Regular) => {
                    let added = forest.with_path(root, path, fresh, false, fresh);
                    lemma_next_is_missing(forest, root, dir, entries, from, fresh);
                    lemma_entry_added(forest, root, dir, name@, false, fresh);
                    lemma_first_entry(entries, from);
                    assert forall|q: Seq<Seq<u8>>| below(q, dir) implies #[trigger] added.entry(
                        root,
                        q,
                    ) == mirror_entry(
                        mirrored_in(entries, from + 1, q.skip(dir.len() as int)),
                        fresh,
                    ) by {
                        lemma_below_child(q, dir, name@);
                        if extends(q, path) {
                            if q != path {
                                if q.len() == path.len() {
                                    assert(q.subrange(0, path.len() as int) =~= q);
                                }
                                assert(below(q, path));
                            }
                        } else {
                            lemma_beside_entry(dir, entries, from, q);
                            assert(forest.entry(root, q) == mirror_entry(
                                mirrored_in(entries, from, q.skip(dir.len() as int)),
                                fresh,
                            ));
                        }
                    }
                    added
                },
                Ok(FileKind::Directory) => {
                    let added = forest.with_path(root, path, fresh, true, fresh);
                    lemma_next_is_missing(forest, root, dir, entries, from, fresh);
                    lemma_entry_added(forest, root, dir, name@, true, fresh);
                    lemma_first_entry(entries, from);
                    let scan = scan_dir(added, root, path, node, options, fresh);
                    let next = if node.listing is Ok {
                        lemma_scan_dir(added, root, path, node, options, fresh);
                        scan.forest
                    } else {
                        added.lemma_without_path(root, path);
                        added.without_path(root, path)
                    };
                    assert(extends(dir, root) && !below(dir, path));
                    assert(next.entry(root, dir) == added.entry(root, dir));
                    assert forall|q: Seq<Seq<u8>>| below(q, dir) implies #[trigger] next.entry(
                        root,
                        q,
                    ) == mirror_entry(
                        mirrored_in(entries, from + 1, q.skip(dir.len() as int)),
                        fresh,
                    ) by {
                        lemma_below_child(q, dir, name@);
                        lemma_extends_chain(q, dir, root);
                        if extends(q, path) {
                            if q != path {
                                if q.len() == path.len() {
                                    assert(q.subrange(0, path.len() as int) =~= q);
                                }
                                assert(below(q, path));
                            }
                        } else {
                            lemma_beside_entry(dir, entries, from, q);
                            assert(!below(q, path));
                            assert(next.entry(root, q) == added.entry(root, q));
                            assert(forest.entry(root, q) == mirror_entry(
                                mirrored_in(entries, from, q.skip(dir.len() as int)),
                                fresh,
                            ));
                        }
                    }
                    assert forall|q: Seq<Seq<u8>>|
                        extends(q, root) && !below(q, dir) implies #[trigger] next.entry(root, q)
                        == forest.entry(root, q) by {
                        if extends(q, path) {
                            lemma_extends_chain(q, path, dir);
                        }
                        assert(next.entry(root, q) == added.entry(root, q));
                    }
                    next
                },
                _ => {
                    lemma_skipped(forest, root, dir, entries, from, fresh);
                    forest
                },
            }
        },
    }
}

/// After a directory was registered with all that lies below it, without
/// an error, its tree holds the directory itself and every regular file
/// and every directory that the listings lead to, each with the default
/// payload, and nothing else; but what lies in a directory that could not
/// be listed is left out with that directory, and a directory that could
/// not be listed itself leaves no tree. The other trees are as they were.
pub proof fn lemma_forest_coverage<T>(
    forest: ForestView<T>,
    dir: Seq<Seq<u8>>,
    disk: DiskNode,
    options: DirectoryAddOptions,
    fresh: T,
)
    requires
        forest.wf(),
        disk.names_unique(),
        register_recursively(forest, dir, disk, options, fresh).error is None,
    ensures
        ({
            let after = register_recursively(forest, dir, disk, options, fresh).forest;
            &&& after.wf()
            &&& after.has_root(dir) == disk.listing is Ok
            &&& forall|other: Seq<Seq<u8>>|
                other != dir ==> #[trigger] after.tree(other) == forest.tree(other)
            &&& disk.listing is Ok ==> forall|q: Seq<Seq<u8>>|
                extends(q, dir) ==> #[trigger] after.entry(dir, q) == mirror_entry(
                    disk.mirrored(q.skip(dir.len() as int)),
                    fresh,
                )
            &&& forall|q: Seq<Seq<u8>>| !extends(q, dir) ==> #[trigger] after.entry(dir, q) is None
        }),
{
    let started = started(forest, dir, fresh);
    let single = TreeView::single(dir, fresh);
    assert(extends(dir, dir)) by {
        assert(dir.subrange(0, dir.len() as int) =~= dir);
    }
    assert forall|q: Seq<Seq<u8>>| true implies #[trigger] single.entry(q) == (if q == dir {
        Some(Entry { info: fresh, is_dir: true })
    } else {
        None
    }) by {
        NodeView::lemma_leaf_find(
            TreeView::<T>::root_name(dir),
            fresh,
            true,
            q.skip(dir.len() as int),
        );
        if single.covers(q) && q.skip(dir.len() as int).len() == 0 {
            assert(q =~= dir) by {
                assert(q.subrange(0, dir.len() as int) =~= q);
            }
        }
        if q == dir {
            assert(q.skip(dir.len() as int).len() == 0);
        }
    }
    assert(single.wf());
    assert forall|other: Seq<Seq<u8>>| true implies #[trigger] started.tree(other) == if other
        == dir {
        Some(single)
    } else {
        forest.tree(other)
    } by {
        forest.lemma_put_tree(single, other);
    }
    forest.lemma_put_tree(single, dir);
    assert(started.entry(dir, dir) == Some(Entry { info: fresh, is_dir: true }));
    let after = register_recursively(forest, dir, disk, options, fresh).forest;
    if disk.listing is Ok {
        lemma_scan_dir(started, dir, dir, disk, options, fresh);
    } else {
        started.lemma_position(dir, 0);
        started.lemma_drop_tree(dir, dir);
        assert forall|other: Seq<Seq<u8>>| other != dir implies #[trigger] after.tree(other)
            == forest.tree(other) by {
            started.lemma_drop_tree(dir, other);
        }
    }
    after.lemma_position(dir, 0);
    assert forall|q: Seq<Seq<u8>>| !extends(q, dir) implies #[trigger] after.entry(dir, q) is None by {
        if after.has_root(dir) {
            let tree = after.tree(dir).unwrap();
            assert(tree.root == dir);
        }
    }
}

/// Adding the items of a listing from `from` on, without reading any
/// directory among them, to a tree that holds the entries that the items
/// before give leaves the tree holding the entries that all items give,
/// and changes nothing else.
pub proof fn lemma_list_entries<T>(
    forest: ForestView<T>,
    dir: Seq<Seq<u8>>,
    entries: Seq<DiskEntry>,
    from: int,
    fresh: T,
)
    requires
        0 <= from <= entries.len(),
        distinct_names(entries),
        lined(forest, dir, dir, entries, from, fresh),
        list_entries(forest, dir, entries, from, fresh).error is None,
    ensures
        lined(
            list_entries(forest, dir, entries, from, fresh).forest,
            dir,
            dir,
            entries,
            entries.len() as int,
            fresh,
        ),
        same_outside(forest, list_entries(forest, dir, entries, from, fresh).forest, dir, dir),
    decreases entries.len() - from,
{
    if from < entries.len() {
        let next = match entries[from] {
            DiskEntry::Failed(failure) => {
                lemma_skipped(forest, dir, dir, entries, from, fresh);
                forest
            },
            DiskEntry::Found { name, node } => {
                if node.kind == Ok::<FileKind, IoFailure>(FileKind::Regular) || node.kind == Ok::<
                    FileKind,
                    IoFailure,
                >(FileKind::Directory) {
                    let is_dir = node.kind == Ok::<FileKind, IoFailure>(FileKind::Directory);
                    let path = dir.push(name@);
                    let added = forest.with_path(dir, path, fresh, is_dir, fresh);
                    lemma_next_is_missing(forest, dir, dir, entries, from, fresh);
                    lemma_entry_added(forest, dir, dir, name@, is_dir, fresh);
                    lemma_first_entry(entries, from);
                    assert forall|q: Seq<Seq<u8>>| below(q, dir) implies #[trigger] added.entry(
                        dir,
                        q,
                    ) == mirror_entry(
                        listed_in(entries, from + 1, q.skip(dir.len() as int)),
                        fresh,
                    ) by {
                        lemma_below_child(q, dir, name@);
                        if extends(q, path) {
                            if q != path {
                                if q.len() == path.len() {
                                    assert(q.subrange(0, path.len() as int) =~= q);
                                }
                                assert(below(q, path));
                            }
                        } else {
                            lemma_beside_entry(dir, entries, from, q);
                            assert(forest.entry(dir, q) == mirror_entry(
                                listed_in(entries, from, q.skip(dir.len() as int)),
                                fresh,
                            ));
                        }
                    }
                    added
                } else {
                    lemma_skipped(forest, dir, dir, entries, from, fresh);
                    forest
                }
            },
        };
        lemma_list_entries(next, dir, entries, from + 1, fresh);
    }
}

/// After a directory that could be listed was registered with its own
/// entries only, without an error, its tree holds the directory itself and
/// every regular file and every directory of the listing, each with the
/// default payload, and nothing else. The other trees are as they were.
pub proof fn lemma_flat_coverage<T>(
    forest: ForestView<T>,
    dir: Seq<Seq<u8>>,
    disk: DiskNode,
    fresh: T,
)
    requires
        forest.wf(),
        disk.listing is Ok,
        distinct_names(disk.listing->Ok_0@),
        register_non_recursively(forest, dir, disk, fresh).error is None,
    ensures
        ({
            let after = register_non_recursively(forest, dir, disk, fresh).forest;
            &&& after.wf()
            &&& after.has_root(dir)
            &&& forall|other: Seq<Seq<u8>>|
                other != dir ==> #[trigger] after.tree(other) == forest.tree(other)
            &&& forall|q: Seq<Seq<u8>>|
                extends(q, dir) ==> #[trigger] after.entry(dir, q) == mirror_entry(
                    disk.listed(q.skip(dir.len() as int)),
                    fresh,
                )
            &&& forall|q: Seq<Seq<u8>>| !extends(q, dir) ==> #[trigger] after.entry(dir, q) is None
        }),
{
    let entries = disk.listing->Ok_0@;
    let started = started(forest, dir, fresh);
    let single = TreeView::single(dir, fresh);
    assert(extends(dir, dir)) by {
        assert(dir.subrange(0, dir.len() as int) =~= dir);
    }
    assert forall|q: Seq<Seq<u8>>| true implies #[trigger] single.entry(q) == (if q == dir {
        Some(Entry { info: fresh, is_dir: true })
    } else {
        None
    }) by {
        NodeView::lemma_leaf_find(
            TreeView::<T>::root_name(dir),
            fresh,
            true,
            q.skip(dir.len() as int),
        );
        if single.covers(q) && q.skip(dir.len() as int).len() == 0 {
            assert(q =~= dir) by {
                assert(q.subrange(0, dir.len() as int) =~= q);
            }
        }
        if q == dir {
            assert(q.skip(dir.len() as int).len() == 0);
        }
    }
    assert(single.wf());
    assert forall|other: Seq<Seq<u8>>| true implies #[trigger] started.tree(other) == if other
        == dir {
        Some(single)
    } else {
        forest.tree(other)
    } by {
        forest.lemma_put_tree(single, other);
    }
    forest.lemma_put_tree(single, dir);
    assert(started.entry(dir, dir) == Some(Entry { info: fresh, is_dir: true }));
    assert(lined(started, dir, dir, entries, 0, fresh)) by {
        assert forall|q: Seq<Seq<u8>>| below(q, dir) implies #[trigger] started.entry(dir, q)
            == mirror_entry(listed_in(entries, 0, q.skip(dir.len() as int)), fresh) by {
            DiskNode::lemma_position(entries, q.skip(dir.len() as int)[0], 0);
        }
    }
    lemma_list_entries(started, dir, entries, 0, fresh);
    let after = register_non_recursively(forest, dir, disk, fresh).forest;
    after.lemma_position(dir, 0);
    assert forall|q: Seq<Seq<u8>>| extends(q, dir) implies #[trigger] after.entry(dir, q)
        == mirror_entry(disk.listed(q.skip(dir.len() as int)), fresh) by {
        if q.len() == dir.len() {
            assert(q =~= dir) by {
                assert(q.subrange(0, dir.len() as int) =~= q);
            }
        }
    }
    assert forall|q: Seq<Seq<u8>>| !extends(q, dir) implies #[trigger] after.entry(dir, q) is None by {
        let tree = after.tree(dir).unwrap();
        assert(tree.root == dir);
    }
}

} // verus!
