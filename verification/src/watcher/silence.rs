//! Nothing is said of what has not changed: a poll of a tree that was just
//! put under watch, against what it was registered from, sends no event.

use crate::disk::{mirrored_in, mirrors, DiskNode, FileKind};
use crate::error::IoFailure;
use crate::forest::coverage::{
    lemma_first_entry, lemma_flat_coverage, lemma_forest_coverage, mirror_entry,
};
use crate::forest::model::{Entry, ForestView, NodeView, TreeView};
use crate::forest::scan::{register_non_recursively, register_recursively};
use crate::forest::walk::{
    child_paths, lemma_sweep_steady, lemma_walk_wf, name_or_empty, walk, walk_tree, Walk,
};
use crate::forest::{DirectoryAddOptions, RecursiveBehaviour};
use crate::path::extends;
use crate::watcher::laws::{is_new, lemma_directory_is_kept, lemma_file_is_reported_by_its_times};
use crate::watcher::{
    poll_all, poll_one, probe, watched, ModTimeInfo, Outbox, PollModel, PollVisitor, Polled,
    Snapshot, TimesModel, TimesVisitor,
};
use vstd::prelude::*;

verus! {

/// What a tree records about the path `rel` below a path that was found as
/// `found`, once it has taken the times over: for the path itself, for
/// every regular file and for every directory that the listings lead to
/// through directories, the times that were found, and whether it is a
/// directory.
pub open spec fn settled(found: DiskNode, rel: Seq<Seq<u8>>) -> Option<Entry<ModTimeInfo>>
    decreases rel.len(),
{
    if rel.len() == 0 {
        if mirrors(found.kind) && found.stat is Ok {
            Some(
                Entry {
                    info: ModTimeInfo::of(found.stat->Ok_0),
                    is_dir: found.kind == Ok::<FileKind, IoFailure>(FileKind::Directory),
                },
            )
        } else {
            None
        }
    } else if found.kind == Ok::<FileKind, IoFailure>(FileKind::Directory) {
        match found.child(rel[0]) {
            Some(node) => settled(node, rel.drop_first()),
            None => None,
        }
    } else {
        None
    }
}

/// An entry as it is before the times are taken over: with the payload
/// `fresh`.
pub open spec fn unsettled(entry: Option<Entry<ModTimeInfo>>, fresh: ModTimeInfo) -> Option<
    Entry<ModTimeInfo>,
> {
    match entry {
        Some(e) => Some(Entry { info: fresh, is_dir: e.is_dir }),
        None => None,
    }
}

/// What was found can be compared with a tree as it stands: the status is
/// known wherever a tree looks for it, every directory could be listed
/// without faults, and no listing holds a name twice.
pub open spec fn steady(found: DiskNode) -> bool {
    &&& found.calm()
    &&& found.names_unique()
    &&& found.kind == Ok::<FileKind, IoFailure>(FileKind::Directory) ==> found.readable()
}

/// What is found at an entry of a steady directory is steady.
pub proof fn lemma_child_is_steady(found: DiskNode, name: Seq<u8>)
    requires
        steady(found),
        found.kind == Ok::<FileKind, IoFailure>(FileKind::Directory),
        found.child(name) is Some,
        mirrors(found.child(name).unwrap().kind),
    ensures
        steady(found.child(name).unwrap()),
{
    let entries = found.listing->Ok_0@;
    DiskNode::lemma_position(entries, name, 0);
}

/// Where a path was found, the path of an entry of it is found as that
/// entry.
pub proof fn lemma_probe_child(
    disk: DiskNode,
    root_len: nat,
    path: Seq<Seq<u8>>,
    found: DiskNode,
    name: Seq<u8>,
)
    requires
        probe(disk, root_len, path) == Some(found),
    ensures
        probe(disk, root_len, path.push(name)) == found.child(name),
{
    disk.lemma_find_push(path.skip(root_len as int), name);
    assert(path.push(name).skip(root_len as int) =~= path.skip(root_len as int).push(name));
}

/// The poll of a subtree that records what was found sends nothing and
/// leaves the subtree as it is.
pub proof fn lemma_poll_is_silent(
    node: NodeView<ModTimeInfo>,
    path: Seq<Seq<u8>>,
    model: PollModel,
    found: DiskNode,
    fresh: ModTimeInfo,
)
    requires
        node.wf(),
        probe(model.disk, model.root_len, path) == Some(found),
        steady(found),
        forall|rel: Seq<Seq<u8>>| #[trigger] node.entry(rel) == settled(found, rel),
    ensures
        walk::<ModTimeInfo, PollVisitor>(node, path, model, fresh) == (Walk {
            node,
            model,
            result: Ok(RecursiveBehaviour::Nothing),
        }),
    decreases node,
{
    reveal_with_fuel(settled, 3);
    reveal_with_fuel(DiskNode::calm, 2);
    assert(node.entry(Seq::empty()) == settled(found, Seq::empty()));
    let stat = found.stat->Ok_0;
    let paths = child_paths(node, path);
    let seen = NodeView { info: ModTimeInfo::of(stat), ..node };
    assert(seen == node);
    if node.is_dir {
        let entries = found.listing->Ok_0@;
        assert forall|i: int| 0 <= i < entries.len() implies !is_new(
            path,
            paths,
            #[trigger] entries[i],
        ) by {
            if entries[i] is Found && mirrors(entries[i]->node.kind) {
                let name = entries[i]->name@;
                let rel = seq![name];
                lemma_first_entry(entries, i);
                assert(rel.drop_first() =~= Seq::<Seq<u8>>::empty());
                assert(node.entry(rel) == settled(found, rel));
                assert(settled(entries[i]->node, rel.drop_first()) is Some);
                NodeView::lemma_position(node.children, name, 0);
                let k = NodeView::position(node.children, name, 0).unwrap();
                assert(paths[k] == path.push(name));
            }
        }
        lemma_directory_is_kept(model, path, paths, node.info, found, stat, entries);
        assert forall|k: int| 0 <= k < node.children.len() implies walk::<ModTimeInfo, PollVisitor>(
            #[trigger] node.children[k],
            path.push(name_or_empty(node.children[k].name)),
            model,
            fresh,
        ) == (Walk { node: node.children[k], model, result: Ok(RecursiveBehaviour::Nothing) }) by {
            let child = node.children[k];
            let name = child.name.unwrap();
            node.lemma_child_entry(k, Seq::empty());
            assert(seq![name] + Seq::<Seq<u8>>::empty() =~= seq![name]);
            assert(node.entry(seq![name]) == settled(found, seq![name]));
            let below = found.child(name).unwrap();
            assert(seq![name].drop_first() =~= Seq::<Seq<u8>>::empty());
            lemma_probe_child(model.disk, model.root_len, path, found, name);
            lemma_child_is_steady(found, name);
            assert forall|rel: Seq<Seq<u8>>| #[trigger] child.entry(rel) == settled(below, rel) by {
                let full = seq![name] + rel;
                node.lemma_child_entry(k, rel);
                assert(full[0] == name);
                assert(full.drop_first() =~= rel);
                assert(node.entry(full) == settled(found, full));
            }
            lemma_poll_is_silent(child, path.push(name), model, below, fresh);
        }
        lemma_sweep_steady::<ModTimeInfo, PollVisitor>(
            node.children,
            0,
            path,
            model,
            fresh,
            node.children,
        );
        assert(node.children.subrange(0, node.children.len() as int) =~= node.children);
    } else {
        lemma_file_is_reported_by_its_times(model, path, paths, node.info, found, stat);
    }
}

/// The first pass over a subtree that was registered from what was found
/// leaves every node with the times that were found, and deletes nothing.
pub proof fn lemma_first_pass_settles(
    node: NodeView<ModTimeInfo>,
    path: Seq<Seq<u8>>,
    model: TimesModel,
    found: DiskNode,
    fresh: ModTimeInfo,
)
    requires
        node.wf(),
        probe(model.disk, model.root_len, path) == Some(found),
        steady(found),
        forall|rel: Seq<Seq<u8>>| #[trigger] node.entry(rel) == unsettled(settled(found, rel), fresh),
    ensures
        ({
            let w = walk::<ModTimeInfo, TimesVisitor>(node, path, model, fresh);
            &&& w.model == model
            &&& w.result == Ok::<RecursiveBehaviour, crate::error::ErrorView>(
                RecursiveBehaviour::Nothing,
            )
            &&& w.node.wf()
            &&& w.node.name == node.name
            &&& forall|rel: Seq<Seq<u8>>| #[trigger] w.node.entry(rel) == settled(found, rel)
        }),
    decreases node,
{
    reveal_with_fuel(settled, 3);
    reveal_with_fuel(DiskNode::calm, 2);
    assert(node.entry(Seq::empty()) == unsettled(settled(found, Seq::empty()), fresh));
    let stat = found.stat->Ok_0;
    let now = ModTimeInfo::of(stat);
    let seen = NodeView { info: now, ..node };
    let w = walk::<ModTimeInfo, TimesVisitor>(node, path, model, fresh);
    lemma_walk_wf::<ModTimeInfo, TimesVisitor>(node, path, model, fresh);
    if node.is_dir {
        let after = Seq::new(
            node.children.len(),
            |k: int|
                walk::<ModTimeInfo, TimesVisitor>(
                    node.children[k],
                    path.push(name_or_empty(node.children[k].name)),
                    model,
                    fresh,
                ).node,
        );
        assert forall|k: int| 0 <= k < node.children.len() implies {
            &&& walk::<ModTimeInfo, TimesVisitor>(
                #[trigger] node.children[k],
                path.push(name_or_empty(node.children[k].name)),
                model,
                fresh,
            ) == (Walk { node: after[k], model, result: Ok(RecursiveBehaviour::Nothing) })
            &&& after[k].name == node.children[k].name
            &&& forall|rel: Seq<Seq<u8>>| #[trigger]
                after[k].entry(rel) == settled(
                    found,
                    seq![node.children[k].name.unwrap()] + rel,
                )
        } by {
            let child = node.children[k];
            let name = child.name.unwrap();
            node.lemma_child_entry(k, Seq::empty());
            assert(seq![name] + Seq::<Seq<u8>>::empty() =~= seq![name]);
            assert(node.entry(seq![name]) == unsettled(settled(found, seq![name]), fresh));
            let below = found.child(name).unwrap();
            assert(seq![name].drop_first() =~= Seq::<Seq<u8>>::empty());
            lemma_probe_child(model.disk, model.root_len, path, found, name);
            lemma_child_is_steady(found, name);
            assert forall|rel: Seq<Seq<u8>>| #[trigger] child.entry(rel) == unsettled(
                settled(below, rel),
                fresh,
            ) by {
                let full = seq![name] + rel;
                node.lemma_child_entry(k, rel);
                assert(full[0] == name);
                assert(full.drop_first() =~= rel);
                assert(node.entry(full) == unsettled(settled(found, full), fresh));
            }
            lemma_first_pass_settles(child, path.push(name), model, below, fresh);
            assert forall|rel: Seq<Seq<u8>>| #[trigger] after[k].entry(rel) == settled(
                found,
                seq![name] + rel,
            ) by {
                let full = seq![name] + rel;
                assert(full[0] == name);
                assert(full.drop_first() =~= rel);
            }
        }
        lemma_sweep_steady::<ModTimeInfo, TimesVisitor>(
            node.children,
            0,
            path,
            model,
            fresh,
            after,
        );
        assert(after.subrange(0, after.len() as int) =~= after);
        assert(w.node == (NodeView { children: after, ..seen }));
        assert forall|rel: Seq<Seq<u8>>| #[trigger] w.node.entry(rel) == settled(found, rel) by {
            if rel.len() > 0 {
                lemma_same_names(node.children, after, rel[0]);
                NodeView::lemma_position(node.children, rel[0], 0);
                assert(node.entry(rel) == unsettled(settled(found, rel), fresh));
                match NodeView::position(node.children, rel[0], 0) {
                    Some(k) => {
                        let full = seq![node.children[k].name.unwrap()] + rel.drop_first();
                        assert(full =~= rel);
                        assert(after[k].entry(rel.drop_first()) == settled(found, full));
                    },
                    None => {},
                }
            }
        }
    } else {
        assert(w.node == seen);
        assert forall|rel: Seq<Seq<u8>>| #[trigger] w.node.entry(rel) == settled(found, rel) by {
            if rel.len() > 0 {
                assert(node.entry(rel) == unsettled(settled(found, rel), fresh));
            }
        }
    }
}

/// Nodes with the same names in the same order are found under the same
/// names at the same places.
proof fn lemma_same_names<T>(before: Seq<NodeView<T>>, after: Seq<NodeView<T>>, name: Seq<u8>)
    requires
        before.len() == after.len(),
        forall|k: int| 0 <= k < before.len() ==> (#[trigger] after[k]).name == before[k].name,
    ensures
        NodeView::position(after, name, 0) == NodeView::position(before, name, 0),
{
    NodeView::lemma_position(before, name, 0);
    NodeView::lemma_position(after, name, 0);
    match NodeView::position(before, name, 0) {
        Some(a) => {
            assert(after[a].name == Some(name));
            match NodeView::position(after, name, 0) {
                Some(b) => {
                    if b < a {
                        assert(before[b].name == after[b].name);
                    }
                    if a < b {
                        assert(after[a].name != Some(name));
                    }
                },
                None => {},
            }
        },
        None => {
            match NodeView::position(after, name, 0) {
                Some(b) => {
                    assert(before[b].name == after[b].name);
                },
                None => {},
            }
        },
    }
}

/// Below a directory whose status is known wherever a tree looks for it,
/// and in which every directory could be listed, the mirrored paths are
/// those that a tree records once it has taken the times over.
proof fn lemma_mirrored_is_unsettled(found: DiskNode, rel: Seq<Seq<u8>>, fresh: ModTimeInfo)
    requires
        found.kind == Ok::<FileKind, IoFailure>(FileKind::Directory),
        found.calm(),
        found.readable(),
    ensures
        mirror_entry(found.mirrored(rel), fresh) == unsettled(settled(found, rel), fresh),
    decreases rel.len(),
{
    reveal_with_fuel(settled, 3);
    reveal_with_fuel(DiskNode::calm, 2);
    reveal_with_fuel(DiskNode::readable, 2);
    reveal_with_fuel(DiskNode::mirrored, 2);
    reveal_with_fuel(mirrored_in, 2);
    if rel.len() > 0 {
        match found.listing {
            Ok(entries) => {
                DiskNode::lemma_position(entries@, rel[0], 0);
                match DiskNode::position(entries@, rel[0], 0) {
                    Some(i) => {
                        let node = entries@[i]->node;
                        if node.kind == Ok::<FileKind, IoFailure>(FileKind::Directory) {
                            lemma_mirrored_is_unsettled(node, rel.drop_first(), fresh);
                        }
                    },
                    None => {},
                }
            },
            Err(_) => {},
        }
    }
}

/// In a directory whose status is known wherever a tree looks for it, and
/// in which no directory holds a regular file or a directory itself, the
/// directory and its entries are all that a tree records once it has taken
/// the times over.
proof fn lemma_listed_is_unsettled(found: DiskNode, rel: Seq<Seq<u8>>, fresh: ModTimeInfo)
    requires
        found.kind == Ok::<FileKind, IoFailure>(FileKind::Directory),
        found.calm(),
        found.flat(),
    ensures
        mirror_entry(found.listed(rel), fresh) == unsettled(settled(found, rel), fresh),
{
    reveal_with_fuel(settled, 4);
    reveal_with_fuel(DiskNode::calm, 2);
    if rel.len() > 0 {
        match found.listing {
            Ok(entries) => {
                DiskNode::lemma_position(entries@, rel[0], 0);
                match DiskNode::position(entries@, rel[0], 0) {
                    Some(i) => {
                        let node = entries@[i]->node;
                        if rel.len() > 1 && node.kind == Ok::<FileKind, IoFailure>(
                            FileKind::Directory,
                        ) {
                            let rest = rel.drop_first();
                            match node.listing {
                                Ok(below) => {
                                    DiskNode::lemma_position(below@, rest[0], 0);
                                    match DiskNode::position(below@, rest[0], 0) {
                                        Some(j) => {
                                            assert(!mirrors(below@[j]->node.kind));
                                        },
                                        None => {},
                                    }
                                },
                                Err(_) => {},
                            }
                        }
                    },
                    None => {},
                }
            },
            Err(_) => {},
        }
    }
}

/// After a directory was put under watch, its tree records exactly what
/// was found: the directory itself, and every regular file and every
/// directory that the listings lead to, each with the times that were
/// found. The other trees are as they were.
///
/// This holds where the registration found a steady state that it took
/// over whole: the status of every mirrored path is known, every directory
/// could be listed without faults, and no listing holds a name twice.
/// Where only the directory's own entries were registered, no directory
/// among them may hold a regular file or a directory itself.
pub proof fn lemma_watched_is_settled(
    forest: ForestView<ModTimeInfo>,
    path: Seq<Seq<u8>>,
    recursive: bool,
    disk: DiskNode,
    fresh: ModTimeInfo,
)
    requires
        forest.wf(),
        disk.kind == Ok::<FileKind, IoFailure>(FileKind::Directory),
        steady(disk),
        !recursive ==> disk.flat(),
        watched(forest, path, recursive, disk, fresh).error is None,
    ensures
        ({
            let watching = watched(forest, path, recursive, disk, fresh).forest;
            &&& watching.wf()
            &&& watching.has_root(path)
            &&& watching.tree(path).unwrap().root == path
            &&& forall|rel: Seq<Seq<u8>>| #[trigger]
                watching.tree(path).unwrap().node.entry(rel) == settled(disk, rel)
            &&& forall|other: Seq<Seq<u8>>|
                other != path ==> #[trigger] watching.tree(other) == forest.tree(other)
        }),
{
    let options = DirectoryAddOptions::tolerant();
    let registered = if recursive {
        register_recursively(forest, path, disk, options, fresh).forest
    } else {
        register_non_recursively(forest, path, disk, fresh).forest
    };
    if recursive {
        lemma_forest_coverage(forest, path, disk, options, fresh);
    } else {
        lemma_flat_coverage(forest, path, disk, fresh);
    }
    registered.lemma_position(path, 0);
    let tree = registered.tree(path).unwrap();
    let n = path.len() as int;
    assert(path.skip(n) =~= Seq::<Seq<u8>>::empty());
    assert(extends(path, path)) by {
        assert(path.subrange(0, n) =~= path);
    }
    assert forall|rel: Seq<Seq<u8>>| #[trigger] tree.node.entry(rel) == unsettled(
        settled(disk, rel),
        fresh,
    ) by {
        let q = path + rel;
        assert(q.subrange(0, n) =~= path);
        assert(q.skip(n) =~= rel);
        if recursive {
            assert(registered.entry(path, q) == mirror_entry(disk.mirrored(rel), fresh));
            lemma_mirrored_is_unsettled(disk, rel, fresh);
        } else {
            assert(registered.entry(path, q) == mirror_entry(disk.listed(rel), fresh));
            lemma_listed_is_unsettled(disk, rel, fresh);
        }
    }
    let times = TimesModel { disk, root_len: path.len() };
    lemma_first_pass_settles(tree.node, path, times, disk, fresh);
    let w = walk_tree::<ModTimeInfo, TimesVisitor>(tree, times, fresh);
    let settled_tree = TreeView { node: w.node, ..tree };
    let watching = watched(forest, path, recursive, disk, fresh).forest;
    assert(watching == registered.put_tree(settled_tree));
    assert forall|other: Seq<Seq<u8>>| true implies #[trigger] watching.tree(other) == if other
        == path {
        Some(settled_tree)
    } else {
        registered.tree(other)
    } by {
        registered.lemma_put_tree(settled_tree, other);
    }
    registered.lemma_put_tree(settled_tree, path);
}

/// After a directory was put under watch, a poll against what the
/// directory was registered from sends nothing and leaves the forest as it
/// is, where the registration found a steady state that it took over whole
/// (see `lemma_watched_is_settled`).
pub proof fn lemma_initial_silence(
    forest: ForestView<ModTimeInfo>,
    path: Seq<Seq<u8>>,
    recursive: bool,
    disk: DiskNode,
    fresh: ModTimeInfo,
    outbox: Outbox,
)
    requires
        forest.wf(),
        disk.kind == Ok::<FileKind, IoFailure>(FileKind::Directory),
        steady(disk),
        !recursive ==> disk.flat(),
        watched(forest, path, recursive, disk, fresh).error is None,
    ensures
        ({
            let watching = watched(forest, path, recursive, disk, fresh).forest;
            poll_one(watching, path, disk, outbox, fresh) == (Polled {
                forest: watching,
                outbox,
                error: None,
            })
        }),
{
    lemma_watched_is_settled(forest, path, recursive, disk, fresh);
    let watching = watched(forest, path, recursive, disk, fresh).forest;
    lemma_poll_of_settled_is_silent(watching, path, disk, fresh, outbox);
}

/// A poll of a tree that records what is found on disk sends nothing and
/// leaves the forest as it is: of what has not changed, nothing is said.
pub proof fn lemma_poll_of_settled_is_silent(
    forest: ForestView<ModTimeInfo>,
    root: Seq<Seq<u8>>,
    disk: DiskNode,
    fresh: ModTimeInfo,
    outbox: Outbox,
)
    requires
        forest.wf(),
        forest.has_root(root),
        steady(disk),
        forall|rel: Seq<Seq<u8>>| #[trigger]
            forest.tree(root).unwrap().node.entry(rel) == settled(disk, rel),
    ensures
        poll_one(forest, root, disk, outbox, fresh) == (Polled { forest, outbox, error: None }),
{
    forest.lemma_position(root, 0);
    let tree = forest.tree(root).unwrap();
    let model = PollModel { disk, root_len: root.len(), outbox };
    assert(root.skip(root.len() as int) =~= Seq::<Seq<u8>>::empty());
    lemma_poll_is_silent(tree.node, root, model, disk, fresh);
    let i = forest.position(root, 0).unwrap();
    assert(forest.trees.update(i, tree) =~= forest.trees);
}

/// After a directory was put under watch, a poll with a snapshot of what
/// the directory was registered from returns no event and leaves the forest
/// as it is, under the conditions of `lemma_initial_silence`.
pub proof fn lemma_first_poll_is_silent(
    forest: ForestView<ModTimeInfo>,
    recursive: bool,
    snapshot: Snapshot,
    fresh: ModTimeInfo,
    next_id: u32,
)
    requires
        forest.wf(),
        snapshot.disk.kind == Ok::<FileKind, IoFailure>(FileKind::Directory),
        steady(snapshot.disk),
        !recursive ==> snapshot.disk.flat(),
        watched(forest, snapshot.root@, recursive, snapshot.disk, fresh).error is None,
    ensures
        ({
            let watching = watched(forest, snapshot.root@, recursive, snapshot.disk, fresh).forest;
            let start = Outbox { events: Seq::empty(), next_id };
            poll_all(watching, seq![snapshot], 0, start, fresh) == (Polled {
                forest: watching,
                outbox: start,
                error: None,
            })
        }),
{
    let start = Outbox { events: Seq::empty(), next_id };
    lemma_initial_silence(forest, snapshot.root@, recursive, snapshot.disk, fresh, start);
    let watching = watched(forest, snapshot.root@, recursive, snapshot.disk, fresh).forest;
    assert(poll_all(watching, seq![snapshot], 1, start, fresh) == (Polled {
        forest: watching,
        outbox: start,
        error: None,
    }));
}

} // verus!
