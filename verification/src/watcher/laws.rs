//! What a poll says of a path, case by case.

use crate::atomic::AtomicIdGenerator;
use crate::disk::{distinct_names, mirrors, no_fault, DiskEntry, DiskNode, FileKind, FileStat};
use crate::error::{IoFailure, PlatformError};
use crate::forest::model::{ForestView, NodeView, TreeView};
use crate::forest::walk::{
    lemma_sweep_wf, lemma_walk_one_wf, lemma_walk_wf, name_or_empty, sweep, walk, walk_tree,
    Directive, NewEntry, Step,
};
use crate::forest::{DfsVisitor, RecursiveBehaviour};
use crate::watcher::{
    created, delete_step, listed, poll_all, poll_one, poll_step, probe, EventView, Listed,
    ModTimeInfo, Outbox, PollModel, PollVisitor, Snapshot, WatchEventKind,
};
use crate::watcher::numbering::lemma_advance_step;
use vstd::prelude::*;

verus! {

/// A path that is no longer found, or that nothing can be learned of, is
/// reported as `Delete` and deleted.
pub proof fn lemma_unlinked_is_deleted(
    model: PollModel,
    path: Seq<Seq<u8>>,
    children: Seq<Seq<Seq<u8>>>,
    info: ModTimeInfo,
    is_dir: bool,
)
    requires
        match probe(model.disk, model.root_len, path) {
            None => true,
            Some(found) => found.kind is Err,
        },
    ensures
        poll_step(model, path, children, info, is_dir) == delete_step(model, path, info),
        delete_step(model, path, info).outcome == Ok::<Directive, crate::error::ErrorView>(
            Directive::Delete,
        ),
        delete_step(model, path, info).model.outbox == model.outbox.send(
            path,
            WatchEventKind::Delete,
        ),
{
}

/// A path that has become something else than a regular file or a
/// directory (a link, a socket, a pipe) is reported as `Delete` and deleted.
pub proof fn lemma_other_type_is_deleted(
    model: PollModel,
    path: Seq<Seq<u8>>,
    children: Seq<Seq<Seq<u8>>>,
    info: ModTimeInfo,
    is_dir: bool,
    found: DiskNode,
)
    requires
        probe(model.disk, model.root_len, path) == Some(found),
        found.kind == Ok::<FileKind, IoFailure>(FileKind::Other),
    ensures
        poll_step(model, path, children, info, is_dir) == delete_step(model, path, info),
{
}

/// A file that was replaced by a directory of the same name, or a
/// directory by a file, is reported as `Delete` and deleted. What stands
/// there now is found as a new entry of its directory by a later poll.
pub proof fn lemma_type_change_is_deleted(
    model: PollModel,
    path: Seq<Seq<u8>>,
    children: Seq<Seq<Seq<u8>>>,
    info: ModTimeInfo,
    is_dir: bool,
    found: DiskNode,
)
    requires
        probe(model.disk, model.root_len, path) == Some(found),
        found.kind == Ok::<FileKind, IoFailure>(
            if is_dir {
                FileKind::Regular
            } else {
                FileKind::Directory
            },
        ),
    ensures
        poll_step(model, path, children, info, is_dir) == delete_step(model, path, info),
{
}

/// A file is reported by its times alone: as `Written` if the content
/// changed later than was last seen, else as `Chmod` if the status did,
/// and else not at all. It stays in the tree with the times that were found.
pub proof fn lemma_file_is_reported_by_its_times(
    model: PollModel,
    path: Seq<Seq<u8>>,
    children: Seq<Seq<Seq<u8>>>,
    info: ModTimeInfo,
    found: DiskNode,
    stat: FileStat,
)
    requires
        probe(model.disk, model.root_len, path) == Some(found),
        found.kind == Ok::<FileKind, IoFailure>(FileKind::Regular),
        found.stat == Ok::<FileStat, PlatformError>(stat),
    ensures
        ({
            let step = poll_step(model, path, children, info, false);
            &&& step.outcome == Ok::<Directive, crate::error::ErrorView>(Directive::Stop)
            &&& step.info == ModTimeInfo::of(stat)
            &&& step.model.disk == model.disk
            &&& step.model.root_len == model.root_len
            &&& stat.st_mtime > info.mtime ==> step.model.outbox == model.outbox.send(
                path,
                WatchEventKind::Written,
            )
            &&& stat.st_mtime <= info.mtime && stat.st_ctime > info.ctime ==> step.model.outbox
                == model.outbox.send(path, WatchEventKind::Chmod)
            &&& stat.st_mtime <= info.mtime && stat.st_ctime <= info.ctime ==> step.model.outbox
                == model.outbox
        }),
{
}

/// Whether the item `entry` of a listing of `dir` is new to a node whose
/// children have the paths `children`: a regular file or a directory that
/// is not among them.
pub open spec fn is_new(dir: Seq<Seq<u8>>, children: Seq<Seq<Seq<u8>>>, entry: DiskEntry) -> bool {
    match entry {
        DiskEntry::Found { name, node } => !children.contains(dir.push(name@)) && mirrors(
            node.kind,
        ),
        DiskEntry::Failed(_) => false,
    }
}

/// In a listing without faults, and with no new entry, the search finds
/// nothing and sends nothing.
pub proof fn lemma_listed_nothing_new(
    dir: Seq<Seq<u8>>,
    children: Seq<Seq<Seq<u8>>>,
    entries: Seq<DiskEntry>,
    from: int,
    so_far: Listed,
)
    requires
        0 <= from,
        no_fault(entries, from),
        forall|i: int| from <= i < entries.len() ==> !is_new(dir, children, #[trigger] entries[i]),
    ensures
        listed(dir, children, entries, from, so_far) == so_far,
    decreases entries.len() - from,
{
    if from < entries.len() {
        assert(!is_new(dir, children, entries[from]));
        lemma_listed_nothing_new(dir, children, entries, from + 1, so_far);
    }
}

/// In a listing without faults, every new entry is found and reported as
/// `Create`, with the path of the entry, after the events that were there
/// before; and what was sent and found before stays in front.
pub proof fn lemma_listed_reports_new(
    dir: Seq<Seq<u8>>,
    children: Seq<Seq<Seq<u8>>>,
    entries: Seq<DiskEntry>,
    from: int,
    so_far: Listed,
    at: int,
)
    requires
        0 <= from <= at < entries.len(),
        no_fault(entries, from),
        so_far.error is None,
        is_new(dir, children, entries[at]),
    ensures
        ({
            let all = listed(dir, children, entries, from, so_far);
            let path = dir.push(entries[at]->name@);
            &&& all.error is None
            &&& exists|k: int|
                so_far.outbox.events.len() <= k < all.outbox.events.len() && (
                #[trigger] all.outbox.events[k]).path == path && all.outbox.events[k].kind
                    == WatchEventKind::Create
            &&& exists|k: int|
                so_far.new.len() <= k < all.new.len() && (#[trigger] all.new[k]).path == path
                    && all.new[k].is_dir == (entries[at]->node.kind == Ok::<FileKind, IoFailure>(
                    FileKind::Directory,
                ))
        }),
    decreases entries.len() - from,
{
    let next = match entries[from] {
        DiskEntry::Failed(failure) => so_far,
        DiskEntry::Found { name, node } => if is_new(dir, children, entries[from]) {
            Listed {
                outbox: so_far.outbox.send(dir.push(name@), WatchEventKind::Create),
                new: so_far.new.push(
                    NewEntry {
                        path: dir.push(name@),
                        is_dir: node.kind == Ok::<FileKind, IoFailure>(FileKind::Directory),
                    },
                ),
                error: None,
            }
        } else {
            so_far
        },
    };
    assert(listed(dir, children, entries, from, so_far) == listed(
        dir,
        children,
        entries,
        from + 1,
        next,
    ));
    lemma_listed_grows(dir, children, entries, from + 1, next);
    let all = listed(dir, children, entries, from, so_far);
    if from == at {
        let k = so_far.outbox.events.len() as int;
        assert(all.outbox.events[k] == next.outbox.events[k]);
        let n = so_far.new.len() as int;
        assert(all.new[n] == next.new[n]);
    } else {
        lemma_listed_reports_new(dir, children, entries, from + 1, next, at);
    }
}

/// In a listing without faults the search ends without error, and what
/// was sent and found before stays in front of what it adds.
pub proof fn lemma_listed_grows(
    dir: Seq<Seq<u8>>,
    children: Seq<Seq<Seq<u8>>>,
    entries: Seq<DiskEntry>,
    from: int,
    so_far: Listed,
)
    requires
        0 <= from,
        no_fault(entries, from),
        so_far.error is None,
    ensures
        ({
            let all = listed(dir, children, entries, from, so_far);
            &&& all.error is None
            &&& so_far.outbox.events.len() <= all.outbox.events.len()
            &&& so_far.new.len() <= all.new.len()
            &&& forall|k: int|
                0 <= k < so_far.outbox.events.len() ==> #[trigger] all.outbox.events[k]
                    == so_far.outbox.events[k]
            &&& forall|k: int| 0 <= k < so_far.new.len() ==> #[trigger] all.new[k] == so_far.new[k]
        }),
    decreases entries.len() - from,
{
    if from < entries.len() {
        let next = match entries[from] {
            DiskEntry::Failed(failure) => so_far,
            DiskEntry::Found { name, node } => if is_new(dir, children, entries[from]) {
                Listed {
                    outbox: so_far.outbox.send(dir.push(name@), WatchEventKind::Create),
                    new: so_far.new.push(
                        NewEntry {
                            path: dir.push(name@),
                            is_dir: node.kind == Ok::<FileKind, IoFailure>(FileKind::Directory),
                        },
                    ),
                    error: None,
                }
            } else {
                so_far
            },
        };
        assert(listed(dir, children, entries, from, so_far) == listed(
            dir,
            children,
            entries,
            from + 1,
            next,
        ));
        lemma_listed_grows(dir, children, entries, from + 1, next);
    }
}

/// A directory that was found with its status and a listing without
/// faults stays in the tree with the times that were found, and the walk
/// goes on below it. If none of its entries is new, nothing is sent.
pub proof fn lemma_directory_is_kept(
    model: PollModel,
    path: Seq<Seq<u8>>,
    children: Seq<Seq<Seq<u8>>>,
    info: ModTimeInfo,
    found: DiskNode,
    stat: FileStat,
    entries: Seq<DiskEntry>,
)
    requires
        probe(model.disk, model.root_len, path) == Some(found),
        found.kind == Ok::<FileKind, IoFailure>(FileKind::Directory),
        found.stat == Ok::<FileStat, PlatformError>(stat),
        found.listing is Ok,
        entries == found.listing->Ok_0@,
        no_fault(entries, 0),
    ensures
        poll_step(model, path, children, info, true).info == ModTimeInfo::of(stat),
        poll_step(model, path, children, info, true).outcome matches Ok(directive) && (
        directive is Continue || directive is AddAndContinue),
        (forall|i: int| 0 <= i < entries.len() ==> !is_new(path, children, #[trigger] entries[i]))
            ==> poll_step(model, path, children, info, true) == (Step {
            model,
            info: ModTimeInfo::of(stat),
            outcome: Ok::<Directive, crate::error::ErrorView>(Directive::Continue),
        }),
{
    let start = Listed { outbox: model.outbox, new: Seq::empty(), error: None };
    lemma_listed_grows(path, children, entries, 0, start);
    if forall|i: int| 0 <= i < entries.len() ==> !is_new(path, children, #[trigger] entries[i]) {
        lemma_listed_nothing_new(path, children, entries, 0, start);
    }
}

/// A new entry of a directory that was found with its status and a
/// listing without faults is reported as `Create`, with the path of the
/// entry, and is among the paths that are added to the tree.
pub proof fn lemma_new_entry_is_created(
    model: PollModel,
    path: Seq<Seq<u8>>,
    children: Seq<Seq<Seq<u8>>>,
    info: ModTimeInfo,
    found: DiskNode,
    stat: FileStat,
    entries: Seq<DiskEntry>,
    at: int,
)
    requires
        probe(model.disk, model.root_len, path) == Some(found),
        found.kind == Ok::<FileKind, IoFailure>(FileKind::Directory),
        found.stat == Ok::<FileStat, PlatformError>(stat),
        found.listing is Ok,
        entries == found.listing->Ok_0@,
        no_fault(entries, 0),
        0 <= at < entries.len(),
        is_new(path, children, entries[at]),
    ensures
        ({
            let step = poll_step(model, path, children, info, true);
            let child = path.push(entries[at]->name@);
            &&& exists|k: int|
                model.outbox.events.len() <= k < step.model.outbox.events.len() && (
                #[trigger] step.model.outbox.events[k]).path == child
                    && step.model.outbox.events[k].kind == WatchEventKind::Create
            &&& step.outcome is Ok
            &&& step.outcome->Ok_0 is AddAndContinue
            &&& exists|k: int|
                0 <= k < step.outcome->Ok_0->AddAndContinue_0.len() && (
                #[trigger] step.outcome->Ok_0->AddAndContinue_0[k]).path == child
        }),
{
    let start = Listed { outbox: model.outbox, new: Seq::empty(), error: None };
    let all = listed(path, children, entries, 0, start);
    let step = poll_step(model, path, children, info, true);
    let child = path.push(entries[at]->name@);
    lemma_listed_grows(path, children, entries, 0, start);
    lemma_listed_reports_new(path, children, entries, 0, start, at);
    assert(step.model.outbox == all.outbox);
    let k = choose|k: int|
        start.outbox.events.len() <= k < all.outbox.events.len() && (
        #[trigger] all.outbox.events[k]).path == child && all.outbox.events[k].kind
            == WatchEventKind::Create;
    assert(step.model.outbox.events[k].path == child);
    let n = choose|n: int|
        start.new.len() <= n < all.new.len() && (#[trigger] all.new[n]).path == child
            && all.new[n].is_dir == (entries[at]->node.kind == Ok::<FileKind, IoFailure>(
            FileKind::Directory,
        ));
    assert(all.new[n].path == child);
    assert(step.outcome == Ok::<Directive, crate::error::ErrorView>(
        Directive::AddAndContinue(all.new),
    ));
    assert(step.outcome->Ok_0->AddAndContinue_0[n].path == child);
}

/// A child whose walk ends in `Delete` is gone after the walk of the
/// children: no child of its name is left.
pub proof fn lemma_deleted_child_is_absent<T, V: DfsVisitor<T>>(
    children: Seq<NodeView<T>>,
    from: int,
    path: Seq<Seq<u8>>,
    model: V::V,
    fresh: T,
)
    requires
        0 <= from < children.len(),
        forall|i: int| 0 <= i < children.len() ==> (#[trigger] children[i]).name is Some && children[i].wf(),
        forall|i: int, j: int|
            0 <= i < j < children.len() ==> (#[trigger] children[i]).name != (
            #[trigger] children[j]).name,
        walk::<T, V>(
            children[from],
            path.push(name_or_empty(children[from].name)),
            model,
            fresh,
        ).result == Ok::<RecursiveBehaviour, crate::error::ErrorView>(RecursiveBehaviour::Delete),
    ensures
        NodeView::position(
            sweep::<T, V>(children, from, path, model, fresh).children,
            children[from].name.unwrap(),
            0,
        ) is None,
{
    let w = walk::<T, V>(
        children[from],
        path.push(name_or_empty(children[from].name)),
        model,
        fresh,
    );
    let left = sweep::<T, V>(children, from + 1, path, w.model, fresh).children;
    lemma_sweep_wf::<T, V>(children, from + 1, path, w.model, fresh);
    NodeView::lemma_position(left, children[from].name.unwrap(), 0);
    match NodeView::position(left, children[from].name.unwrap(), 0) {
        Some(k) => {
            let j = choose|j: int|
                from + 1 <= j < children.len() && (#[trigger] children[j]).name == left[k].name;
            assert(children[from].name != children[j].name);
        },
        None => {},
    }
}

/// Whether one of the snapshots, from the index `from` on, is a snapshot
/// of `root`.
pub open spec fn names_root(snapshots: Seq<Snapshot>, from: int, root: Seq<Seq<u8>>) -> bool {
    exists|i: int| from <= i < snapshots.len() && (#[trigger] snapshots[i]).root@ == root
}

/// The polls pass over every tree of which they are given no snapshot:
/// such a tree is afterwards what it was, and the forest stays well formed.
pub proof fn lemma_poll_passes_over(
    forest: ForestView<ModTimeInfo>,
    snapshots: Seq<Snapshot>,
    from: int,
    outbox: Outbox,
    fresh: ModTimeInfo,
    root: Seq<Seq<u8>>,
)
    requires
        0 <= from,
        forest.wf(),
        !names_root(snapshots, from, root),
    ensures
        poll_all(forest, snapshots, from, outbox, fresh).forest.wf(),
        poll_all(forest, snapshots, from, outbox, fresh).forest.tree(root) == forest.tree(root),
    decreases snapshots.len() - from,
{
    if from < snapshots.len() {
        let polled = snapshots[from].root@;
        let model = PollModel { disk: snapshots[from].disk, root_len: polled.len(), outbox };
        let one = poll_one(forest, polled, snapshots[from].disk, outbox, fresh);
        assert(polled != root);
        lemma_walk_one_wf::<ModTimeInfo, PollVisitor>(forest, polled, model, fresh);
        forest.lemma_position(polled, 0);
        match forest.tree(polled) {
            None => {},
            Some(tree) => {
                let w = walk_tree::<ModTimeInfo, PollVisitor>(tree, model, fresh);
                let walked = TreeView { node: w.node, ..tree };
                lemma_walk_wf::<ModTimeInfo, PollVisitor>(tree.node, tree.root, model, fresh);
                forest.lemma_put_tree(walked, root);
                forest.lemma_drop_tree(polled, root);
            },
        }
        assert(one.forest.tree(root) == forest.tree(root));
        if one.error is None {
            assert forall|i: int| from + 1 <= i < snapshots.len() implies (
            #[trigger] snapshots[i]).root@ != root by {}
            lemma_poll_passes_over(one.forest, snapshots, from + 1, one.outbox, fresh, root);
        }
    }
}

/// A directory that is missing or may not be listed is reported as
/// `Delete` and deleted; it takes over the times that were found before.
pub proof fn lemma_unlistable_directory_is_deleted(
    model: PollModel,
    path: Seq<Seq<u8>>,
    children: Seq<Seq<Seq<u8>>>,
    info: ModTimeInfo,
    found: DiskNode,
    stat: FileStat,
)
    requires
        probe(model.disk, model.root_len, path) == Some(found),
        found.kind == Ok::<FileKind, IoFailure>(FileKind::Directory),
        found.stat == Ok::<FileStat, PlatformError>(stat),
        found.listing matches Err(failure) && failure.kind.is_gone(),
    ensures
        poll_step(model, path, children, info, true) == (Step {
            model: PollModel { outbox: model.outbox.send(path, WatchEventKind::Delete), ..model },
            info: ModTimeInfo::of(stat),
            outcome: Ok::<Directive, crate::error::ErrorView>(Directive::Delete),
        }),
{
}

/// What sending a `Create` for each of some paths does to the outbox: the
/// events that were there stay in front, one event follows for each path,
/// in the order of the paths, and they are numbered on.
pub proof fn lemma_created(new: Seq<NewEntry>, start: Outbox)
    ensures
        created(new, start).events.len() == start.events.len() + new.len(),
        created(new, start).next_id == AtomicIdGenerator::advance(start.next_id, new.len()),
        forall|k: int|
            0 <= k < start.events.len() ==> #[trigger] created(new, start).events[k]
                == start.events[k],
        forall|k: int|
            0 <= k < new.len() ==> #[trigger] created(new, start).events[start.events.len() + k]
                == (EventView {
                path: new[k].path,
                kind: WatchEventKind::Create,
                id: AtomicIdGenerator::advance(start.next_id, k as nat),
            }),
    decreases new.len(),
{
    if new.len() > 0 {
        let before = created(new.drop_last(), start);
        lemma_created(new.drop_last(), start);
        lemma_advance_step(start.next_id, (new.len() - 1) as nat);
        let all = created(new, start);
        assert forall|k: int| 0 <= k < new.len() implies #[trigger] all.events[start.events.len()
            + k] == (EventView {
            path: new[k].path,
            kind: WatchEventKind::Create,
            id: AtomicIdGenerator::advance(start.next_id, k as nat),
        }) by {
            if k < new.len() - 1 {
                assert(new.drop_last()[k] == new[k]);
                assert(all.events[start.events.len() + k] == before.events[start.events.len()
                    + k]);
            }
        }
    }
}

/// The search for new entries sends one `Create` for each path that it
/// finds, in the order in which it finds them, and nothing else; and no
/// path that it finds is among the children.
pub proof fn lemma_listed_creates(
    dir: Seq<Seq<u8>>,
    children: Seq<Seq<Seq<u8>>>,
    entries: Seq<DiskEntry>,
    from: int,
    so_far: Listed,
    start: Outbox,
)
    requires
        0 <= from,
        so_far.outbox == created(so_far.new, start),
        forall|k: int| 0 <= k < so_far.new.len() ==> !children.contains(#[trigger] so_far.new[k].path),
    ensures
        ({
            let all = listed(dir, children, entries, from, so_far);
            &&& all.outbox == created(all.new, start)
            &&& forall|k: int| 0 <= k < all.new.len() ==> !children.contains(#[trigger] all.new[k].path)
        }),
    decreases entries.len() - from,
{
    if from < entries.len() {
        match entries[from] {
            DiskEntry::Failed(failure) => {
                if failure.kind.is_gone() {
                    lemma_listed_creates(dir, children, entries, from + 1, so_far, start);
                }
            },
            DiskEntry::Found { name, node } => {
                let path = dir.push(name@);
                if !children.contains(path) && mirrors(node.kind) {
                    let entry = NewEntry {
                        path,
                        is_dir: node.kind == Ok::<FileKind, IoFailure>(FileKind::Directory),
                    };
                    let next = Listed {
                        outbox: so_far.outbox.send(path, WatchEventKind::Create),
                        new: so_far.new.push(entry),
                        error: None,
                    };
                    assert(next.new.drop_last() =~= so_far.new);
                    assert(next.new.last() == entry);
                    assert forall|k: int| 0 <= k < next.new.len() implies !children.contains(
                        #[trigger] next.new[k].path,
                    ) by {
                        if k < so_far.new.len() {
                            assert(next.new[k] == so_far.new[k]);
                        }
                    }
                    lemma_listed_creates(dir, children, entries, from + 1, next, start);
                } else {
                    lemma_listed_creates(dir, children, entries, from + 1, so_far, start);
                }
            },
        }
    }
}

/// Whether `path` is the path of one of the first `upto` items of a
/// listing of `dir`.
pub open spec fn of_entry(
    dir: Seq<Seq<u8>>,
    entries: Seq<DiskEntry>,
    upto: int,
    path: Seq<Seq<u8>>,
) -> bool {
    exists|i: int|
        0 <= i < upto && i < entries.len() && (#[trigger] entries[i]) is Found && path == dir.push(
            entries[i]->name@,
        )
}

/// In a listing that holds no name twice, the search finds no path twice:
/// each path that it finds is the path of an entry of the listing, and no
/// two are the same. So each new entry gets its `Create` exactly once.
pub proof fn lemma_listed_once(
    dir: Seq<Seq<u8>>,
    children: Seq<Seq<Seq<u8>>>,
    entries: Seq<DiskEntry>,
    from: int,
    so_far: Listed,
)
    requires
        0 <= from <= entries.len(),
        distinct_names(entries),
        forall|k: int|
            0 <= k < so_far.new.len() ==> of_entry(dir, entries, from, #[trigger] so_far.new[k].path),
        forall|a: int, b: int|
            0 <= a < b < so_far.new.len() ==> (#[trigger] so_far.new[a]).path != (
            #[trigger] so_far.new[b]).path,
    ensures
        ({
            let all = listed(dir, children, entries, from, so_far);
            &&& forall|k: int|
                0 <= k < all.new.len() ==> of_entry(
                    dir,
                    entries,
                    entries.len() as int,
                    #[trigger] all.new[k].path,
                )
            &&& forall|a: int, b: int|
                0 <= a < b < all.new.len() ==> (#[trigger] all.new[a]).path != (
                #[trigger] all.new[b]).path
        }),
    decreases entries.len() - from,
{
    if from < entries.len() {
        let next = match entries[from] {
            DiskEntry::Failed(failure) => so_far,
            DiskEntry::Found { name, node } => if is_new(dir, children, entries[from]) {
                Listed {
                    outbox: so_far.outbox.send(dir.push(name@), WatchEventKind::Create),
                    new: so_far.new.push(
                        NewEntry {
                            path: dir.push(name@),
                            is_dir: node.kind == Ok::<FileKind, IoFailure>(FileKind::Directory),
                        },
                    ),
                    error: None,
                }
            } else {
                so_far
            },
        };
        assert forall|k: int| 0 <= k < next.new.len() implies of_entry(
            dir,
            entries,
            from + 1,
            #[trigger] next.new[k].path,
        ) by {
            if k < so_far.new.len() {
                assert(next.new[k] == so_far.new[k]);
                assert(of_entry(dir, entries, from, so_far.new[k].path));
                let i = choose|i: int|
                    0 <= i < from && i < entries.len() && (#[trigger] entries[i]) is Found
                        && so_far.new[k].path == dir.push(entries[i]->name@);
                assert(entries[i] is Found);
            } else {
                assert(entries[from] is Found);
            }
        }
        assert forall|a: int, b: int| 0 <= a < b < next.new.len() implies (
        #[trigger] next.new[a]).path != (#[trigger] next.new[b]).path by {
            assert(next.new[a] == so_far.new[a]);
            if b < so_far.new.len() {
                assert(next.new[b] == so_far.new[b]);
            } else {
                assert(of_entry(dir, entries, from, so_far.new[a].path));
                let i = choose|i: int|
                    0 <= i < from && i < entries.len() && (#[trigger] entries[i]) is Found
                        && so_far.new[a].path == dir.push(entries[i]->name@);
                assert(entries[from] is Found);
                assert(entries[i]->name@ != entries[from]->name@);
                assert(dir.push(entries[i]->name@).last() == entries[i]->name@);
                assert(dir.push(entries[from]->name@).last() == entries[from]->name@);
            }
        }
        if entries[from] is Failed && !entries[from]->Failed_0.kind.is_gone() {
            let all = listed(dir, children, entries, from, so_far);
            assert(all.new == so_far.new);
            assert forall|k: int| 0 <= k < all.new.len() implies of_entry(
                dir,
                entries,
                entries.len() as int,
                #[trigger] all.new[k].path,
            ) by {
                assert(of_entry(dir, entries, from, so_far.new[k].path));
                let i = choose|i: int|
                    0 <= i < from && i < entries.len() && (#[trigger] entries[i]) is Found
                        && so_far.new[k].path == dir.push(entries[i]->name@);
                assert(entries[i] is Found);
            }
        } else {
            lemma_listed_once(dir, children, entries, from + 1, next);
        }
    }
}

} // verus!
