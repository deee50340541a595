//! Canonical paths in what a watcher holds and says: where the
//! directories are registered at canonical paths and are found with names
//! that can be components of canonical paths, every path that the forest
//! holds and every path of an event is canonical.

use crate::disk::{mirrors, DiskEntry, DiskNode};
use crate::forest::model::ForestView;
use crate::forest::named::{
    lemma_canonical_push, lemma_registered_is_canonical, lemma_walk_one_named, named, wanted,
};
use crate::forest::scan::{register_non_recursively, register_recursively};
use crate::forest::{DfsVisitor, DirectoryAddOptions};
use crate::path::{canonical, valid_name};
use crate::watcher::quiet::next_listed;
use crate::watcher::{
    listed, poll_all, poll_one, poll_step, probe, watched, Listed, ModTimeInfo, Outbox,
    PollModel, PollVisitor, Snapshot, TimesModel, TimesVisitor, WatchEventKind,
};
use vstd::prelude::*;

verus! {

/// Whether the events of the outbox from the index `since` on have
/// canonical paths.
pub open spec fn events_canonical(outbox: Outbox, since: int) -> bool {
    forall|i: int|
        since <= i < outbox.events.len() && 0 <= i ==> canonical((#[trigger] outbox.events[i]).path)
}

/// An event for a canonical path leaves the paths of the events canonical.
pub proof fn lemma_send_canonical(
    outbox: Outbox,
    since: int,
    path: Seq<Seq<u8>>,
    kind: WatchEventKind,
)
    requires
        events_canonical(outbox, since),
        canonical(path),
    ensures
        events_canonical(outbox.send(path, kind), since),
{
    let after = outbox.send(path, kind);
    assert forall|i: int| since <= i < after.events.len() && 0 <= i implies canonical(
        (#[trigger] after.events[i]).path,
    ) by {
        if i < outbox.events.len() {
            assert(after.events[i] == outbox.events[i]);
        }
    }
}

/// The search for the new entries of a directory at a canonical path, in
/// a listing with canonical names, finds entries with canonical names and
/// sends events for canonical paths.
pub proof fn lemma_listed_canonical(
    dir: Seq<Seq<u8>>,
    children: Seq<Seq<Seq<u8>>>,
    entries: Seq<DiskEntry>,
    from: int,
    so_far: Listed,
    since: int,
)
    requires
        0 <= from,
        canonical(dir),
        forall|i: int|
            0 <= i < entries.len() && (#[trigger] entries[i]) is Found ==> valid_name(
                entries[i]->name@,
            ),
        named(so_far.new),
        events_canonical(so_far.outbox, since),
    ensures
        named(listed(dir, children, entries, from, so_far).new),
        events_canonical(listed(dir, children, entries, from, so_far).outbox, since),
    decreases entries.len() - from,
{
    if from < entries.len() {
        match entries[from] {
            DiskEntry::Failed(failure) => {
                if failure.kind.is_gone() {
                    lemma_listed_canonical(dir, children, entries, from + 1, so_far, since);
                }
            },
            DiskEntry::Found { name, node } => {
                let path = dir.push(name@);
                if !children.contains(path) && mirrors(node.kind) {
                    let next = next_listed(so_far, path, node);
                    assert(dir.subrange(0, dir.len() as int) =~= dir);
                    lemma_canonical_push(dir, name@, dir);
                    lemma_send_canonical(so_far.outbox, since, path, WatchEventKind::Create);
                    assert forall|j: int|
                        0 <= j < next.new.len() && (#[trigger] next.new[j]).path.len()
                            > 0 implies valid_name(next.new[j].path.last()) by {
                        if j < so_far.new.len() {
                            assert(next.new[j] == so_far.new[j]);
                        }
                    }
                    lemma_listed_canonical(dir, children, entries, from + 1, next, since);
                } else {
                    lemma_listed_canonical(dir, children, entries, from + 1, so_far, since);
                }
            },
        }
    }
}

/// A visit of a poll at a canonical path, against what was found with
/// canonical names, asks for entries with canonical names and sends
/// events for canonical paths.
pub proof fn lemma_poll_step_canonical(
    model: PollModel,
    path: Seq<Seq<u8>>,
    children: Seq<Seq<Seq<u8>>>,
    info: ModTimeInfo,
    is_dir: bool,
    since: int,
)
    requires
        canonical(path),
        model.disk.well_named(),
        events_canonical(model.outbox, since),
    ensures
        ({
            let step = poll_step(model, path, children, info, is_dir);
            &&& step.model.disk == model.disk
            &&& step.model.root_len == model.root_len
            &&& events_canonical(step.model.outbox, since)
            &&& named(wanted(step.outcome))
        }),
{
    lemma_send_canonical(model.outbox, since, path, WatchEventKind::Delete);
    lemma_send_canonical(model.outbox, since, path, WatchEventKind::Written);
    lemma_send_canonical(model.outbox, since, path, WatchEventKind::Chmod);
    if let Some(found) = probe(model.disk, model.root_len, path) {
        model.disk.lemma_find_well_named(path.skip(model.root_len as int));
        if let Ok(entries) = found.listing {
            let first = Listed { outbox: model.outbox, new: Seq::empty(), error: None };
            lemma_listed_canonical(path, children, entries@, 0, first, since);
        }
    }
}

/// The poll of one tree of a forest of canonical paths, against what was
/// found with canonical names, leaves a forest of canonical paths and
/// sends events for canonical paths.
pub proof fn lemma_poll_one_canonical(
    forest: ForestView<ModTimeInfo>,
    root: Seq<Seq<u8>>,
    disk: DiskNode,
    outbox: Outbox,
    fresh: ModTimeInfo,
    since: int,
)
    requires
        forest.canonical_paths(),
        disk.well_named(),
        events_canonical(outbox, since),
    ensures
        poll_one(forest, root, disk, outbox, fresh).forest.canonical_paths(),
        events_canonical(poll_one(forest, root, disk, outbox, fresh).outbox, since),
{
    let model = PollModel { disk, root_len: root.len(), outbox };
    let kept = |m: PollModel| m.disk == disk && events_canonical(m.outbox, since);
    assert forall|m: PollModel, p: Seq<Seq<u8>>, c: Seq<Seq<Seq<u8>>>, i: ModTimeInfo, d: bool|
        canonical(p) && kept(m) implies kept(#[trigger] PollVisitor::step(m, p, c, i, d).model) by {
        lemma_poll_step_canonical(m, p, c, i, d, since);
    }
    assert forall|m: PollModel, p: Seq<Seq<u8>>, c: Seq<Seq<Seq<u8>>>, i: ModTimeInfo, d: bool|
        canonical(p) && kept(m) implies named(
        wanted(#[trigger] PollVisitor::step(m, p, c, i, d).outcome),
    ) by {
        lemma_poll_step_canonical(m, p, c, i, d, since);
    }
    lemma_walk_one_named::<ModTimeInfo, PollVisitor>(forest, root, model, fresh, kept);
}

/// Every poll keeps the paths canonical: where the forest holds canonical
/// paths and the directories are found with names that can be components
/// of canonical paths, the forest holds canonical paths afterwards, and
/// every event that the poll sends is for a canonical path.
pub proof fn lemma_poll_is_canonical(
    forest: ForestView<ModTimeInfo>,
    snapshots: Seq<Snapshot>,
    from: int,
    outbox: Outbox,
    fresh: ModTimeInfo,
    since: int,
)
    requires
        0 <= from,
        forest.canonical_paths(),
        forall|i: int| 0 <= i < snapshots.len() ==> (#[trigger] snapshots[i]).disk.well_named(),
        events_canonical(outbox, since),
    ensures
        poll_all(forest, snapshots, from, outbox, fresh).forest.canonical_paths(),
        events_canonical(poll_all(forest, snapshots, from, outbox, fresh).outbox, since),
    decreases snapshots.len() - from,
{
    if from < snapshots.len() {
        let root = snapshots[from].root@;
        let disk = snapshots[from].disk;
        let one = poll_one(forest, root, disk, outbox, fresh);
        lemma_poll_one_canonical(forest, root, disk, outbox, fresh, since);
        if one.error is None {
            lemma_poll_is_canonical(one.forest, snapshots, from + 1, one.outbox, fresh, since);
        }
    }
}

/// Putting a directory under watch keeps the paths canonical: where the
/// forest holds canonical paths, the directory is registered at a
/// canonical path and is found with names that can be components of
/// canonical paths, the forest holds canonical paths afterwards, whether
/// or not an error ends the registration.
pub proof fn lemma_watched_is_canonical(
    forest: ForestView<ModTimeInfo>,
    path: Seq<Seq<u8>>,
    recursive: bool,
    disk: DiskNode,
    fresh: ModTimeInfo,
)
    requires
        forest.canonical_paths(),
        canonical(path),
        disk.well_named(),
    ensures
        watched(forest, path, recursive, disk, fresh).forest.canonical_paths(),
{
    lemma_registered_is_canonical(forest, path, disk, DirectoryAddOptions::tolerant(), fresh);
    let registered = if recursive {
        register_recursively(forest, path, disk, DirectoryAddOptions::tolerant(), fresh)
    } else {
        register_non_recursively(forest, path, disk, fresh)
    };
    let model = TimesModel { disk, root_len: path.len() };
    let kept = |m: TimesModel| true;
    assert forall|m: TimesModel, p: Seq<Seq<u8>>, c: Seq<Seq<Seq<u8>>>, i: ModTimeInfo, d: bool|
        canonical(p) && kept(m) implies named(
        wanted(#[trigger] TimesVisitor::step(m, p, c, i, d).outcome),
    ) by {}
    lemma_walk_one_named::<ModTimeInfo, TimesVisitor>(registered.forest, path, model, fresh, kept);
}

} // verus!
