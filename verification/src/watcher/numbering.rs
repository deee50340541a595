//! The numbering of the events: in the order in which they arise.

use crate::atomic::AtomicIdGenerator;
use crate::disk::{mirrors, DiskEntry, FileKind};
use crate::error::IoFailure;
use crate::forest::model::ForestView;
use crate::forest::walk::{lemma_walk_one_keeps, NewEntry};
use crate::forest::DfsVisitor;
use crate::watcher::{
    listed, poll_all, poll_one, poll_step, probe, Listed, ModTimeInfo, Outbox, PollModel,
    PollVisitor, Snapshot, WatchEventKind,
};
use vstd::prelude::*;

verus! {

impl Outbox {
    /// The events are numbered in their order, from `first` on, and the
    /// next identifier is the one that follows.
    pub open spec fn numbered_from(self, first: u32) -> bool {
        &&& self.next_id == AtomicIdGenerator::advance(first, self.events.len())
        &&& forall|i: int|
            0 <= i < self.events.len() ==> (#[trigger] self.events[i]).id
                == AtomicIdGenerator::advance(first, i as nat)
    }

    /// Sending keeps the numbering.
    pub proof fn lemma_send_numbered(self, first: u32, path: Seq<Seq<u8>>, kind: WatchEventKind)
        requires
            self.numbered_from(first),
        ensures
            self.send(path, kind).numbered_from(first),
    {
        lemma_advance_step(first, self.events.len());
    }
}

/// The identifier after `n + 1` steps is the successor of the one after `n`.
pub proof fn lemma_advance_step(first: u32, n: nat)
    ensures
        AtomicIdGenerator::advance(first, n + 1) == AtomicIdGenerator::successor(
            AtomicIdGenerator::advance(first, n),
        ),
    decreases n,
{
    let next = AtomicIdGenerator::successor(first);
    assert(AtomicIdGenerator::advance(first, n + 1) == AtomicIdGenerator::advance(next, n));
    if n > 0 {
        lemma_advance_step(next, (n - 1) as nat);
        assert(AtomicIdGenerator::advance(first, n) == AtomicIdGenerator::advance(
            next,
            (n - 1) as nat,
        ));
    } else {
        assert(AtomicIdGenerator::advance(next, 0) == next);
        assert(AtomicIdGenerator::advance(first, 0) == first);
    }
}

/// The search for new entries keeps the numbering of the events.
pub proof fn lemma_listed_numbered(
    dir: Seq<Seq<u8>>,
    children: Seq<Seq<Seq<u8>>>,
    entries: Seq<DiskEntry>,
    from: int,
    so_far: Listed,
    first: u32,
)
    requires
        0 <= from,
        so_far.outbox.numbered_from(first),
    ensures
        listed(dir, children, entries, from, so_far).outbox.numbered_from(first),
    decreases entries.len() - from,
{
    if from < entries.len() {
        match entries[from] {
            DiskEntry::Failed(failure) => {
                if failure.kind.is_gone() {
                    lemma_listed_numbered(dir, children, entries, from + 1, so_far, first);
                }
            },
            DiskEntry::Found { name, node } => {
                let path = dir.push(name@);
                if !children.contains(path) && mirrors(node.kind) {
                    so_far.outbox.lemma_send_numbered(first, path, WatchEventKind::Create);
                    lemma_listed_numbered(
                        dir,
                        children,
                        entries,
                        from + 1,
                        Listed {
                            outbox: so_far.outbox.send(path, WatchEventKind::Create),
                            new: so_far.new.push(
                                NewEntry {
                                    path,
                                    is_dir: node.kind == Ok::<FileKind, IoFailure>(
                                        FileKind::Directory,
                                    ),
                                },
                            ),
                            error: None,
                        },
                        first,
                    );
                } else {
                    lemma_listed_numbered(dir, children, entries, from + 1, so_far, first);
                }
            },
        }
    }
}

/// A visit of a poll keeps the numbering of the events.
pub proof fn lemma_poll_step_numbered(
    model: PollModel,
    path: Seq<Seq<u8>>,
    children: Seq<Seq<Seq<u8>>>,
    info: ModTimeInfo,
    is_dir: bool,
    first: u32,
)
    requires
        model.outbox.numbered_from(first),
    ensures
        poll_step(model, path, children, info, is_dir).model.outbox.numbered_from(first),
{
    model.outbox.lemma_send_numbered(first, path, WatchEventKind::Delete);
    model.outbox.lemma_send_numbered(first, path, WatchEventKind::Written);
    model.outbox.lemma_send_numbered(first, path, WatchEventKind::Chmod);
    match probe(model.disk, model.root_len, path) {
        None => {},
        Some(found) => {
            match found.listing {
                Ok(entries) => {
                    lemma_listed_numbered(
                        path,
                        children,
                        entries@,
                        0,
                        Listed { outbox: model.outbox, new: Seq::empty(), error: None },
                        first,
                    );
                },
                Err(_) => {},
            }
        },
    }
}

/// The polls keep the numbering of the events.
pub proof fn lemma_poll_all_numbered(
    forest: ForestView<ModTimeInfo>,
    snapshots: Seq<Snapshot>,
    from: int,
    outbox: Outbox,
    fresh: ModTimeInfo,
    first: u32,
)
    requires
        0 <= from,
        outbox.numbered_from(first),
    ensures
        poll_all(forest, snapshots, from, outbox, fresh).outbox.numbered_from(first),
    decreases snapshots.len() - from,
{
    if from < snapshots.len() {
        let root = snapshots[from].root@;
        let model = PollModel { disk: snapshots[from].disk, root_len: root.len(), outbox };
        let kept = |m: PollModel| m.outbox.numbered_from(first);
        assert forall|m: PollModel, p: Seq<Seq<u8>>, c: Seq<Seq<Seq<u8>>>, i: ModTimeInfo, d: bool|
            kept(m) implies kept(#[trigger] PollVisitor::step(m, p, c, i, d).model) by {
            lemma_poll_step_numbered(m, p, c, i, d, first);
        }
        lemma_walk_one_keeps::<ModTimeInfo, PollVisitor>(forest, root, model, fresh, kept);
        let one = poll_one(forest, root, snapshots[from].disk, outbox, fresh);
        if one.error is None {
            lemma_poll_all_numbered(one.forest, snapshots, from + 1, one.outbox, fresh, first);
        }
    }
}

/// The events of a poll carry increasing identifiers: as long as the
/// count does not start over, the `i`-th event has the identifier
/// `next_id + i`, and so an earlier event has a smaller identifier than a
/// later one.
pub proof fn lemma_event_ids_increase(
    forest: ForestView<ModTimeInfo>,
    snapshots: Seq<Snapshot>,
    next_id: u32,
    fresh: ModTimeInfo,
    i: int,
    j: int,
)
    requires
        0 <= i < j < poll_all(
            forest,
            snapshots,
            0,
            Outbox { events: Seq::empty(), next_id },
            fresh,
        ).outbox.events.len(),
        next_id + poll_all(
            forest,
            snapshots,
            0,
            Outbox { events: Seq::empty(), next_id },
            fresh,
        ).outbox.events.len() <= u32::MAX,
    ensures
        ({
            let events = poll_all(
                forest,
                snapshots,
                0,
                Outbox { events: Seq::empty(), next_id },
                fresh,
            ).outbox.events;
            &&& events[i].id == next_id + i
            &&& events[j].id == next_id + j
            &&& events[i].id < events[j].id
        }),
{
    let start = Outbox { events: Seq::empty(), next_id };
    lemma_poll_all_numbered(forest, snapshots, 0, start, fresh, next_id);
    AtomicIdGenerator::lemma_advance_adds(next_id, i as nat);
    AtomicIdGenerator::lemma_advance_adds(next_id, j as nat);
}

} // verus!
