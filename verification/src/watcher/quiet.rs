//! What an outbox says of one path: that nothing more was said of it, or
//! that exactly one event tells of it; and what the visits of a poll keep
//! of either.

use crate::disk::{distinct_names, mirrors, DiskEntry, DiskNode, FileKind};
use crate::error::IoFailure;
use crate::forest::reach::{adds_beside, beside, clear_of, lemma_clear_below};
use crate::forest::walk::{new_entries, NewEntry};
use crate::forest::DfsVisitor;
use crate::path::extends;
use crate::watcher::{
    listed, poll_step, probe, Listed, ModTimeInfo, Outbox, PollModel, PollVisitor, WatchEventKind,
};
use vstd::prelude::*;

verus! {

/// Whether an event for the path `q` is about `p`: whether it is an
/// event for `p`, or, where `below`, for `p` or for a path below it.
pub open spec fn about(q: Seq<Seq<u8>>, p: Seq<Seq<u8>>, below: bool) -> bool {
    if below {
        extends(q, p)
    } else {
        q == p
    }
}

/// Whether `now` is the outbox `start` with events behind it none of which
/// is about `p`.
pub open spec fn quiet_since(start: Outbox, now: Outbox, p: Seq<Seq<u8>>, below: bool) -> bool {
    &&& start.events.len() <= now.events.len()
    &&& now.events.subrange(0, start.events.len() as int) == start.events
    &&& forall|i: int|
        start.events.len() <= i < now.events.len() ==> !about(
            (#[trigger] now.events[i]).path,
            p,
            below,
        )
}

/// Whether the event `i` of `now` is an event of the kind `kind` for the
/// path `p`, and the only event behind those of `start` that is for `p` or
/// for a path below it.
pub open spec fn told_at(
    start: Outbox,
    now: Outbox,
    p: Seq<Seq<u8>>,
    kind: WatchEventKind,
    i: int,
) -> bool {
    &&& start.events.len() <= i < now.events.len()
    &&& now.events.subrange(0, start.events.len() as int) == start.events
    &&& now.events[i].path == p
    &&& now.events[i].kind == kind
    &&& forall|j: int|
        start.events.len() <= j < now.events.len() && j != i ==> !about(
            (#[trigger] now.events[j]).path,
            p,
            true,
        )
}

/// Whether `now` is the outbox `start` with events behind it of which
/// exactly one is for `p` or for a path below it: an event of the kind
/// `kind` for `p` itself.
pub open spec fn told_once(start: Outbox, now: Outbox, p: Seq<Seq<u8>>, kind: WatchEventKind) -> bool {
    exists|i: int| told_at(start, now, p, kind, i)
}

/// An outbox is quiet about what it holds already.
pub proof fn lemma_quiet_at_once(start: Outbox, p: Seq<Seq<u8>>, below: bool)
    ensures
        quiet_since(start, start, p, below),
{
    assert(start.events.subrange(0, start.events.len() as int) =~= start.events);
}

/// An event that is not about `p` leaves an outbox quiet about `p`.
pub proof fn lemma_send_quiet(
    start: Outbox,
    now: Outbox,
    p: Seq<Seq<u8>>,
    below: bool,
    path: Seq<Seq<u8>>,
    kind: WatchEventKind,
)
    requires
        quiet_since(start, now, p, below),
        !about(path, p, below),
    ensures
        quiet_since(start, now.send(path, kind), p, below),
{
    let after = now.send(path, kind);
    assert(after.events.subrange(0, start.events.len() as int) =~= now.events.subrange(
        0,
        start.events.len() as int,
    ));
}

/// An event for a path, behind events that said nothing of it, is the
/// one event about it.
pub proof fn lemma_send_tells(start: Outbox, now: Outbox, p: Seq<Seq<u8>>, kind: WatchEventKind)
    requires
        quiet_since(start, now, p, true),
    ensures
        told_once(start, now.send(p, kind), p, kind),
{
    let after = now.send(p, kind);
    assert(after.events.subrange(0, start.events.len() as int) =~= now.events.subrange(
        0,
        start.events.len() as int,
    ));
    assert(told_at(start, after, p, kind, now.events.len() as int));
}

/// Events that are not about a path, behind events that are not about
/// it, are not about it together.
pub proof fn lemma_quiet_follows(
    first: Outbox,
    second: Outbox,
    third: Outbox,
    p: Seq<Seq<u8>>,
    below: bool,
)
    requires
        quiet_since(first, second, p, below),
        quiet_since(second, third, p, below),
    ensures
        quiet_since(first, third, p, below),
{
    let n = first.events.len() as int;
    let k = second.events.len() as int;
    assert(third.events.subrange(0, n) =~= third.events.subrange(0, k).subrange(0, n));
    assert forall|i: int| n <= i < third.events.len() implies !about(
        (#[trigger] third.events[i]).path,
        p,
        below,
    ) by {
        if i < k {
            assert(third.events[i] == third.events.subrange(0, k)[i]);
        }
    }
}

/// The one event about a path stays the only one where nothing more is
/// said of the path.
pub proof fn lemma_told_then_quiet(
    first: Outbox,
    second: Outbox,
    third: Outbox,
    p: Seq<Seq<u8>>,
    kind: WatchEventKind,
)
    requires
        told_once(first, second, p, kind),
        quiet_since(second, third, p, true),
    ensures
        told_once(first, third, p, kind),
{
    let i = choose|i: int| told_at(first, second, p, kind, i);
    let n = first.events.len() as int;
    let k = second.events.len() as int;
    assert(third.events.subrange(0, n) =~= third.events.subrange(0, k).subrange(0, n));
    assert forall|j: int| n <= j < third.events.len() && j != i implies !about(
        (#[trigger] third.events[j]).path,
        p,
        true,
    ) by {
        if j < k {
            assert(third.events[j] == third.events.subrange(0, k)[j]);
        }
    }
    assert(third.events[i] == third.events.subrange(0, k)[i]);
    assert(told_at(first, third, p, kind, i));
}

/// The one event about a path is the only one where nothing was said of
/// the path before.
pub proof fn lemma_quiet_then_told(
    first: Outbox,
    second: Outbox,
    third: Outbox,
    p: Seq<Seq<u8>>,
    kind: WatchEventKind,
)
    requires
        quiet_since(first, second, p, true),
        told_once(second, third, p, kind),
    ensures
        told_once(first, third, p, kind),
{
    let i = choose|i: int| told_at(second, third, p, kind, i);
    let n = first.events.len() as int;
    let k = second.events.len() as int;
    assert(third.events.subrange(0, n) =~= third.events.subrange(0, k).subrange(0, n));
    assert forall|j: int| n <= j < third.events.len() && j != i implies !about(
        (#[trigger] third.events[j]).path,
        p,
        true,
    ) by {
        if j < k {
            assert(third.events[j] == third.events.subrange(0, k)[j]);
        }
    }
    assert(told_at(first, third, p, kind, i));
}

/// Events none of which is for a path or for one below it are not for the
/// path.
pub proof fn lemma_quiet_below_is_quiet(start: Outbox, now: Outbox, p: Seq<Seq<u8>>)
    requires
        quiet_since(start, now, p, true),
    ensures
        quiet_since(start, now, p, false),
{
    assert(p.subrange(0, p.len() as int) =~= p);
}

/// Events that are not for a path or below it are not for a path below
/// that one or below it.
pub proof fn lemma_quiet_narrows(
    start: Outbox,
    now: Outbox,
    p: Seq<Seq<u8>>,
    lower: Seq<Seq<u8>>,
)
    requires
        quiet_since(start, now, p, true),
        extends(lower, p),
    ensures
        quiet_since(start, now, lower, true),
{
    assert forall|i: int| start.events.len() <= i < now.events.len() implies !about(
        (#[trigger] now.events[i]).path,
        lower,
        true,
    ) by {
        let q = now.events[i].path;
        if extends(q, lower) {
            assert(q.subrange(0, p.len() as int) =~= q.subrange(0, lower.len() as int).subrange(
                0,
                p.len() as int,
            ));
        }
    }
}

/// Two paths right below one directory of which one starts with the other
/// have the same name.
pub proof fn lemma_about_entry(dir: Seq<Seq<u8>>, name: Seq<u8>, other: Seq<u8>)
    requires
        about(dir.push(other), dir.push(name), true),
    ensures
        other == name,
{
    let q = dir.push(other);
    assert(q.subrange(0, q.len() as int) =~= q);
    assert(q.last() == other);
}

/// What was found so far with one more new entry, for `path`, at which
/// `node` was found.
pub open spec fn next_listed(so_far: Listed, path: Seq<Seq<u8>>, node: DiskNode) -> Listed {
    Listed {
        outbox: so_far.outbox.send(path, WatchEventKind::Create),
        new: so_far.new.push(
            NewEntry { path, is_dir: node.kind == Ok::<FileKind, IoFailure>(FileKind::Directory) },
        ),
        error: None,
    }
}

/// Whether all of `new` are wanted right below `dir`.
pub open spec fn under(new: Seq<NewEntry>, dir: Seq<Seq<u8>>) -> bool {
    forall|j: int|
        0 <= j < new.len() ==> (#[trigger] new[j]).path.len() > 0 && new[j].path.drop_last() == dir
}

/// Whether `new` holds the entry for `path` with the kind `is_dir` at the
/// index `k`, and no other entry for that path.
pub open spec fn holds_once(new: Seq<NewEntry>, path: Seq<Seq<u8>>, is_dir: bool, k: int) -> bool {
    &&& 0 <= k < new.len()
    &&& new[k] == (NewEntry { path, is_dir })
    &&& forall|j: int| 0 <= j < new.len() && j != k ==> (#[trigger] new[j]).path != path
}

/// The search for the new entries of a directory is quiet about `p`
/// where every entry of the directory that an event would be about is a
/// child that the directory has in the tree.
pub proof fn lemma_listed_quiet(
    dir: Seq<Seq<u8>>,
    children: Seq<Seq<Seq<u8>>>,
    entries: Seq<DiskEntry>,
    from: int,
    so_far: Listed,
    start: Outbox,
    p: Seq<Seq<u8>>,
    below: bool,
)
    requires
        0 <= from,
        quiet_since(start, so_far.outbox, p, below),
        forall|name: Seq<u8>|
            about(#[trigger] dir.push(name), p, below) ==> children.contains(dir.push(name)),
    ensures
        quiet_since(start, listed(dir, children, entries, from, so_far).outbox, p, below),
    decreases entries.len() - from,
{
    if from < entries.len() {
        match entries[from] {
            DiskEntry::Failed(failure) => {
                if failure.kind.is_gone() {
                    lemma_listed_quiet(dir, children, entries, from + 1, so_far, start, p, below);
                }
            },
            DiskEntry::Found { name, node } => {
                let path = dir.push(name@);
                if !children.contains(path) && mirrors(node.kind) {
                    lemma_send_quiet(start, so_far.outbox, p, below, path, WatchEventKind::Create);
                    let next = Listed {
                        outbox: so_far.outbox.send(path, WatchEventKind::Create),
                        new: so_far.new.push(
                            NewEntry {
                                path,
                                is_dir: node.kind == Ok::<FileKind, IoFailure>(FileKind::Directory),
                            },
                        ),
                        error: None,
                    };
                    lemma_listed_quiet(dir, children, entries, from + 1, next, start, p, below);
                } else {
                    lemma_listed_quiet(dir, children, entries, from + 1, so_far, start, p, below);
                }
            },
        }
    }
}

/// The search for the new entries of a directory finds only entries whose
/// names none of the children has.
pub proof fn lemma_listed_beside(
    dir: Seq<Seq<u8>>,
    children: Seq<Seq<Seq<u8>>>,
    entries: Seq<DiskEntry>,
    from: int,
    so_far: Listed,
)
    requires
        0 <= from,
        beside(so_far.new, dir, children),
    ensures
        beside(listed(dir, children, entries, from, so_far).new, dir, children),
    decreases entries.len() - from,
{
    if from < entries.len() {
        match entries[from] {
            DiskEntry::Failed(failure) => {
                if failure.kind.is_gone() {
                    lemma_listed_beside(dir, children, entries, from + 1, so_far);
                }
            },
            DiskEntry::Found { name, node } => {
                let path = dir.push(name@);
                if !children.contains(path) && mirrors(node.kind) {
                    let entry = NewEntry {
                        path,
                        is_dir: node.kind == Ok::<FileKind, IoFailure>(FileKind::Directory),
                    };
                    let next = Listed {
                        outbox: so_far.outbox.send(path, WatchEventKind::Create),
                        new: so_far.new.push(entry),
                        error: None,
                    };
                    assert(dir.push(path.last()) =~= path);
                    assert forall|j: int|
                        0 <= j < next.new.len() && (#[trigger] next.new[j]).path.len()
                            > 0 implies !children.contains(dir.push(next.new[j].path.last())) by {
                        if j < so_far.new.len() {
                            assert(next.new[j] == so_far.new[j]);
                        }
                    }
                    lemma_listed_beside(dir, children, entries, from + 1, next);
                } else {
                    lemma_listed_beside(dir, children, entries, from + 1, so_far);
                }
            },
        }
    }
}

/// The search for the new entries of a directory finds only paths right
/// below the directory.
pub proof fn lemma_listed_under(
    dir: Seq<Seq<u8>>,
    children: Seq<Seq<Seq<u8>>>,
    entries: Seq<DiskEntry>,
    from: int,
    so_far: Listed,
)
    requires
        0 <= from,
        under(so_far.new, dir),
    ensures
        under(listed(dir, children, entries, from, so_far).new, dir),
    decreases entries.len() - from,
{
    if from < entries.len() {
        match entries[from] {
            DiskEntry::Failed(failure) => {
                if failure.kind.is_gone() {
                    lemma_listed_under(dir, children, entries, from + 1, so_far);
                }
            },
            DiskEntry::Found { name, node } => {
                let path = dir.push(name@);
                if !children.contains(path) && mirrors(node.kind) {
                    let next = next_listed(so_far, path, node);
                    assert(path.drop_last() =~= dir);
                    assert forall|j: int| 0 <= j < next.new.len() implies (
                    #[trigger] next.new[j]).path.len() > 0 && next.new[j].path.drop_last()
                        == dir by {
                        if j < so_far.new.len() {
                            assert(next.new[j] == so_far.new[j]);
                        }
                    }
                    lemma_listed_under(dir, children, entries, from + 1, next);
                } else {
                    lemma_listed_under(dir, children, entries, from + 1, so_far);
                }
            },
        }
    }
}

/// Where no item of a listing that is yet to come would make a new entry
/// called `name`, the search says nothing of that entry's path and finds
/// no such entry.
pub proof fn lemma_listed_passes(
    dir: Seq<Seq<u8>>,
    children: Seq<Seq<Seq<u8>>>,
    entries: Seq<DiskEntry>,
    from: int,
    so_far: Listed,
    start: Outbox,
    name: Seq<u8>,
)
    requires
        0 <= from,
        quiet_since(start, so_far.outbox, dir.push(name), true),
        forall|j: int| 0 <= j < so_far.new.len() ==> (#[trigger] so_far.new[j]).path != dir.push(name),
        forall|i: int|
            from <= i < entries.len() && (#[trigger] entries[i]).is_named(name) ==> !mirrors(
                entries[i]->node.kind,
            ) || children.contains(dir.push(name)),
    ensures
        ({
            let all = listed(dir, children, entries, from, so_far);
            &&& quiet_since(start, all.outbox, dir.push(name), true)
            &&& forall|j: int| 0 <= j < all.new.len() ==> (#[trigger] all.new[j]).path != dir.push(name)
        }),
    decreases entries.len() - from,
{
    if from < entries.len() {
        match entries[from] {
            DiskEntry::Failed(failure) => {
                if failure.kind.is_gone() {
                    lemma_listed_passes(dir, children, entries, from + 1, so_far, start, name);
                }
            },
            DiskEntry::Found { name: other, node } => {
                let path = dir.push(other@);
                if !children.contains(path) && mirrors(node.kind) {
                    let next = next_listed(so_far, path, node);
                    assert(entries[from].is_named(other@));
                    if about(path, dir.push(name), true) {
                        lemma_about_entry(dir, name, other@);
                    }
                    lemma_send_quiet(
                        start,
                        so_far.outbox,
                        dir.push(name),
                        true,
                        path,
                        WatchEventKind::Create,
                    );
                    assert(dir.push(name).subrange(0, dir.push(name).len() as int) =~= dir.push(
                        name,
                    ));
                    assert forall|j: int| 0 <= j < next.new.len() implies (
                    #[trigger] next.new[j]).path != dir.push(name) by {
                        if j < so_far.new.len() {
                            assert(next.new[j] == so_far.new[j]);
                        }
                    }
                    lemma_listed_passes(dir, children, entries, from + 1, next, start, name);
                } else {
                    lemma_listed_passes(dir, children, entries, from + 1, so_far, start, name);
                }
            },
        }
    }
}

/// Once the one `Create` for a new entry is sent, the rest of the search,
/// in which no item has that entry's name, leaves it the only one.
pub proof fn lemma_listed_rest(
    dir: Seq<Seq<u8>>,
    children: Seq<Seq<Seq<u8>>>,
    entries: Seq<DiskEntry>,
    from: int,
    so_far: Listed,
    start: Outbox,
    name: Seq<u8>,
    is_dir: bool,
    k: int,
)
    requires
        0 <= from,
        told_once(start, so_far.outbox, dir.push(name), WatchEventKind::Create),
        holds_once(so_far.new, dir.push(name), is_dir, k),
        forall|i: int| from <= i < entries.len() ==> !(#[trigger] entries[i]).is_named(name),
    ensures
        ({
            let all = listed(dir, children, entries, from, so_far);
            &&& told_once(start, all.outbox, dir.push(name), WatchEventKind::Create)
            &&& holds_once(all.new, dir.push(name), is_dir, k)
        }),
    decreases entries.len() - from,
{
    if from < entries.len() {
        match entries[from] {
            DiskEntry::Failed(failure) => {
                if failure.kind.is_gone() {
                    lemma_listed_rest(dir, children, entries, from + 1, so_far, start, name, is_dir, k);
                }
            },
            DiskEntry::Found { name: other, node } => {
                let path = dir.push(other@);
                if !children.contains(path) && mirrors(node.kind) {
                    let next = next_listed(so_far, path, node);
                    assert(!entries[from].is_named(name));
                    if about(path, dir.push(name), true) {
                        lemma_about_entry(dir, name, other@);
                    }
                    lemma_quiet_at_once(so_far.outbox, dir.push(name), true);
                    lemma_send_quiet(
                        so_far.outbox,
                        so_far.outbox,
                        dir.push(name),
                        true,
                        path,
                        WatchEventKind::Create,
                    );
                    lemma_told_then_quiet(
                        start,
                        so_far.outbox,
                        next.outbox,
                        dir.push(name),
                        WatchEventKind::Create,
                    );
                    assert(dir.push(name).subrange(0, dir.push(name).len() as int) =~= dir.push(
                        name,
                    ));
                    assert(next.new[k] == so_far.new[k]);
                    assert forall|j: int| 0 <= j < next.new.len() && j != k implies (
                    #[trigger] next.new[j]).path != dir.push(name) by {
                        if j < so_far.new.len() {
                            assert(next.new[j] == so_far.new[j]);
                        }
                    }
                    lemma_listed_rest(dir, children, entries, from + 1, next, start, name, is_dir, k);
                } else {
                    lemma_listed_rest(dir, children, entries, from + 1, so_far, start, name, is_dir, k);
                }
            },
        }
    }
}

/// In a listing that holds no name twice, the search sends exactly one
/// `Create` for an item that is a regular file or a directory and is no
/// child of the directory yet, and finds that entry once, unless an error
/// ends it.
pub proof fn lemma_listed_tells(
    dir: Seq<Seq<u8>>,
    children: Seq<Seq<Seq<u8>>>,
    entries: Seq<DiskEntry>,
    from: int,
    so_far: Listed,
    start: Outbox,
    at: int,
)
    requires
        0 <= from <= at < entries.len(),
        distinct_names(entries),
        entries[at] is Found,
        mirrors(entries[at]->node.kind),
        !children.contains(dir.push(entries[at]->name@)),
        quiet_since(start, so_far.outbox, dir.push(entries[at]->name@), true),
        forall|j: int|
            0 <= j < so_far.new.len() ==> (#[trigger] so_far.new[j]).path != dir.push(
                entries[at]->name@,
            ),
    ensures
        ({
            let all = listed(dir, children, entries, from, so_far);
            let path = dir.push(entries[at]->name@);
            let is_dir = entries[at]->node.kind == Ok::<FileKind, IoFailure>(FileKind::Directory);
            all.error is None ==> told_once(start, all.outbox, path, WatchEventKind::Create)
                && exists|k: int| holds_once(all.new, path, is_dir, k)
        }),
    decreases entries.len() - from,
{
    let name = entries[at]->name@;
    let target = dir.push(name);
    let is_dir = entries[at]->node.kind == Ok::<FileKind, IoFailure>(FileKind::Directory);
    if from == at {
        let next = next_listed(so_far, target, entries[at]->node);
        let k = so_far.new.len() as int;
        lemma_send_tells(start, so_far.outbox, target, WatchEventKind::Create);
        assert forall|j: int| 0 <= j < next.new.len() && j != k implies (
        #[trigger] next.new[j]).path != target by {
            assert(next.new[j] == so_far.new[j]);
        }
        assert(holds_once(next.new, target, is_dir, k));
        assert forall|i: int| at + 1 <= i < entries.len() implies !(
        #[trigger] entries[i]).is_named(name) by {
            if entries[i] is Found {
                assert(entries[at]->name@ != entries[i]->name@);
            }
        }
        lemma_listed_rest(dir, children, entries, at + 1, next, start, name, is_dir, k);
    } else {
        match entries[from] {
            DiskEntry::Failed(failure) => {
                if failure.kind.is_gone() {
                    lemma_listed_tells(dir, children, entries, from + 1, so_far, start, at);
                }
            },
            DiskEntry::Found { name: other, node } => {
                let path = dir.push(other@);
                assert(entries[from]->name@ != entries[at]->name@);
                if !children.contains(path) && mirrors(node.kind) {
                    let next = next_listed(so_far, path, node);
                    if about(path, target, true) {
                        lemma_about_entry(dir, name, other@);
                    }
                    lemma_send_quiet(
                        start,
                        so_far.outbox,
                        target,
                        true,
                        path,
                        WatchEventKind::Create,
                    );
                    assert(target.subrange(0, target.len() as int) =~= target);
                    assert forall|j: int| 0 <= j < next.new.len() implies (
                    #[trigger] next.new[j]).path != target by {
                        if j < so_far.new.len() {
                            assert(next.new[j] == so_far.new[j]);
                        }
                    }
                    lemma_listed_tells(dir, children, entries, from + 1, next, start, at);
                } else {
                    lemma_listed_tells(dir, children, entries, from + 1, so_far, start, at);
                }
            },
        }
    }
}

/// A polling visitor asks only for entries that the node it is shown has
/// not got.
pub proof fn lemma_poll_adds_beside()
    ensures
        adds_beside::<ModTimeInfo, PollVisitor>(),
{
    assert forall|m: PollModel, p: Seq<Seq<u8>>, c: Seq<Seq<Seq<u8>>>, i: ModTimeInfo, d: bool|
        (#[trigger] PollVisitor::step(m, p, c, i, d)).outcome matches Ok(directive) ==> beside(
            new_entries(directive),
            p,
            c,
        ) by {
        let step = poll_step(m, p, c, i, d);
        if let Some(found) = probe(m.disk, m.root_len, p) {
            if let Ok(entries) = found.listing {
                let start = Listed { outbox: m.outbox, new: Seq::empty(), error: None };
                lemma_listed_beside(p, c, entries@, 0, start);
            }
        }
    }
}

/// A visit of a poll at a path that is clear of `p` is quiet about `p`.
pub proof fn lemma_poll_step_quiet(
    model: PollModel,
    path: Seq<Seq<u8>>,
    children: Seq<Seq<Seq<u8>>>,
    info: ModTimeInfo,
    is_dir: bool,
    start: Outbox,
    p: Seq<Seq<u8>>,
    below: bool,
)
    requires
        clear_of(path, p, below),
        quiet_since(start, model.outbox, p, below),
    ensures
        quiet_since(start, poll_step(model, path, children, info, is_dir).model.outbox, p, below),
{
    assert(p.subrange(0, p.len() as int) =~= p);
    assert forall|name: Seq<u8>| !about(#[trigger] path.push(name), p, below) by {
        lemma_clear_below(path, name, p, below);
    }
    lemma_send_quiet(start, model.outbox, p, below, path, WatchEventKind::Delete);
    lemma_send_quiet(start, model.outbox, p, below, path, WatchEventKind::Written);
    lemma_send_quiet(start, model.outbox, p, below, path, WatchEventKind::Chmod);
    if let Some(found) = probe(model.disk, model.root_len, path) {
        if let Ok(entries) = found.listing {
            let first = Listed { outbox: model.outbox, new: Seq::empty(), error: None };
            lemma_listed_quiet(path, children, entries@, 0, first, start, p, below);
        }
    }
}

} // verus!
