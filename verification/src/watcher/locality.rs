//! What a poll says of one path and makes of its node, whatever it finds
//! elsewhere in the tree.

use crate::disk::{distinct_names, mirrors, no_fault, DiskNode, FileKind};
use crate::error::{ErrorView, IoFailure};
use crate::forest::model::{Entry, ForestView, NodeView, TreeView};
use crate::forest::reach::{
    before, clear_of, goes_below, lemma_before_keeps, lemma_before_keeps_off, lemma_clear_beside,
    lemma_reach_keeps, lemma_reached_entry, lemma_reached_keeps, lemma_reached_keeps_beside,
    lemma_reached_walk, lemma_sweep_comes_to_all, lemma_walk_root, reach,
};
use crate::forest::walk::{
    child_paths, lemma_sweep_wf, lemma_walk_wf, name_or_empty, new_entries, sweep, walk, walk_tree,
    Directive, Step,
};
use crate::forest::{DfsVisitor, RecursiveBehaviour};
use crate::path::extends;
use crate::watcher::change::{found_at, Change};
use crate::watcher::laws::{is_new, lemma_directory_is_kept};
use crate::watcher::quiet::{
    about, holds_once, lemma_listed_passes, lemma_listed_quiet, lemma_listed_tells,
    lemma_listed_under, lemma_poll_adds_beside, lemma_poll_step_quiet, lemma_quiet_at_once,
    lemma_quiet_below_is_quiet, lemma_quiet_follows, lemma_quiet_narrows, lemma_quiet_then_told,
    lemma_send_quiet, lemma_send_tells, lemma_told_then_quiet, quiet_since, told_once,
};
use crate::watcher::silence::lemma_probe_child;
use crate::watcher::{
    listed, poll_one, poll_step, probe, Listed, ModTimeInfo, Outbox, PollModel, PollVisitor,
    WatchEventKind,
};
use vstd::prelude::*;

verus! {

/// Whether what is found at a path, of which the tree holds the node
/// `target`, lets the node stay without a word about it: a directory that
/// is a directory still and is not gone, or a file that is a file still
/// and whose times are not later than those the tree holds.
pub open spec fn at_rest(target: NodeView<ModTimeInfo>, at: Option<DiskNode>) -> bool {
    &&& at matches Some(now)
    &&& now.stat matches Ok(stat)
    &&& if target.is_dir {
        &&& now.kind == Ok::<FileKind, IoFailure>(FileKind::Directory)
        &&& !(now.listing matches Err(failure) && failure.kind.is_gone())
    } else {
        &&& now.kind == Ok::<FileKind, IoFailure>(FileKind::Regular)
        &&& !ModTimeInfo::of(stat).modified_since(&target.info)
        &&& !ModTimeInfo::of(stat).changed_since(&target.info)
    }
}

/// What a poll finds on disk, and where the tree it walks has its root,
/// are the same when the walk comes to a node as when it began.
pub proof fn lemma_reach_keeps_disk(
    node: NodeView<ModTimeInfo>,
    path: Seq<Seq<u8>>,
    model: PollModel,
    fresh: ModTimeInfo,
    rel: Seq<Seq<u8>>,
)
    ensures
        reach::<ModTimeInfo, PollVisitor>(node, path, model, fresh, rel) matches Some(m) ==> m.disk
            == model.disk && m.root_len == model.root_len,
{
    let kept = |m: PollModel| m.disk == model.disk && m.root_len == model.root_len;
    assert forall|m: PollModel, p: Seq<Seq<u8>>, c: Seq<Seq<Seq<u8>>>, i: ModTimeInfo, d: bool|
        kept(m) implies kept(#[trigger] PollVisitor::step(m, p, c, i, d).model) by {}
    lemma_reach_keeps::<ModTimeInfo, PollVisitor>(node, path, model, fresh, rel, kept);
}

/// From the visit of a node on, a poll says nothing more of the node's
/// path: the events that follow what that visit sent are for other paths.
/// Where the walk does not go below the node, they are not for paths
/// below it either.
pub proof fn lemma_quiet_after_visit(
    node: NodeView<ModTimeInfo>,
    path: Seq<Seq<u8>>,
    model: PollModel,
    fresh: ModTimeInfo,
    rel: Seq<Seq<u8>>,
    below: bool,
)
    requires
        node.wf(),
        reach::<ModTimeInfo, PollVisitor>(node, path, model, fresh, rel) is Some,
        below ==> !goes_below(
            poll_step(
                reach::<ModTimeInfo, PollVisitor>(node, path, model, fresh, rel).unwrap(),
                path + rel,
                child_paths(node.find(rel).unwrap(), path + rel),
                node.find(rel).unwrap().info,
                node.find(rel).unwrap().is_dir,
            ).outcome,
        ),
    ensures
        ({
            let m = reach::<ModTimeInfo, PollVisitor>(node, path, model, fresh, rel).unwrap();
            let target = node.find(rel).unwrap();
            let visit = poll_step(
                m,
                path + rel,
                child_paths(target, path + rel),
                target.info,
                target.is_dir,
            );
            quiet_since(
                visit.model.outbox,
                walk::<ModTimeInfo, PollVisitor>(node, path, model, fresh).model.outbox,
                path + rel,
                below,
            )
        }),
{
    let m = reach::<ModTimeInfo, PollVisitor>(node, path, model, fresh, rel).unwrap();
    let target = node.find(rel).unwrap();
    let at = path + rel;
    let visit = poll_step(m, at, child_paths(target, at), target.info, target.is_dir);
    let kept = |now: PollModel| quiet_since(visit.model.outbox, now.outbox, at, below);
    lemma_quiet_at_once(visit.model.outbox, at, below);
    assert forall|now: PollModel, p: Seq<Seq<u8>>, c: Seq<Seq<Seq<u8>>>, i: ModTimeInfo, d: bool|
        clear_of(p, at, below) && kept(now) implies kept(
        #[trigger] PollVisitor::step(now, p, c, i, d).model,
    ) by {
        lemma_poll_step_quiet(now, p, c, i, d, visit.model.outbox, at, below);
    }
    lemma_reached_keeps::<ModTimeInfo, PollVisitor>(node, path, model, fresh, rel, below, kept);
}

/// Until the walk of a poll comes to a node, it says nothing of the
/// node's path and of the paths below it.
pub proof fn lemma_quiet_before_visit(
    node: NodeView<ModTimeInfo>,
    path: Seq<Seq<u8>>,
    model: PollModel,
    fresh: ModTimeInfo,
    rel: Seq<Seq<u8>>,
)
    requires
        node.wf(),
        reach::<ModTimeInfo, PollVisitor>(node, path, model, fresh, rel) is Some,
    ensures
        quiet_since(
            model.outbox,
            reach::<ModTimeInfo, PollVisitor>(node, path, model, fresh, rel).unwrap().outbox,
            path + rel,
            true,
        ),
    decreases rel.len(),
{
    let off = path + rel;
    lemma_quiet_at_once(model.outbox, off, true);
    if rel.len() > 0 {
        let children = child_paths(node, path);
        let step = poll_step(model, path, children, node.info, node.is_dir);
        let k = NodeView::position(node.children, rel[0], 0).unwrap();
        NodeView::lemma_position(node.children, rel[0], 0);
        let at = path.push(rel[0]);
        let rest = rel.drop_first();
        let m = before::<ModTimeInfo, PollVisitor>(node.children, 0, k, path, step.model, fresh)
            .unwrap();
        assert(at + rest =~= off);
        // The visit of the node above sends no event for the path or below it.
        assert(!extends(path, off));
        assert(children[k] == at);
        assert forall|name: Seq<u8>| about(#[trigger] path.push(name), off, true) implies children.contains(
            path.push(name),
        ) by {
            let other = path.push(name);
            assert(other.subrange(0, off.len() as int) =~= other);
            assert(off =~= at) by {
                assert(off[path.len() as int] == rel[0]);
                assert(off.len() == 1 + path.len());
                assert(rel =~= seq![rel[0]]);
            }
        }
        lemma_send_quiet(model.outbox, model.outbox, off, true, path, WatchEventKind::Delete);
        if let Some(found) = probe(model.disk, model.root_len, path) {
            if let Ok(entries) = found.listing {
                let first = Listed { outbox: model.outbox, new: Seq::empty(), error: None };
                lemma_listed_quiet(path, children, entries@, 0, first, model.outbox, off, true);
            }
        }
        assert(quiet_since(model.outbox, step.model.outbox, off, true));
        // Nor do the walks of the children in front of the one on the way.
        let kept = |now: PollModel| quiet_since(model.outbox, now.outbox, off, true);
        assert forall|now: PollModel, p: Seq<Seq<u8>>, c: Seq<Seq<Seq<u8>>>, i: ModTimeInfo, d: bool|
            clear_of(p, off, true) && kept(now) implies kept(
            #[trigger] PollVisitor::step(now, p, c, i, d).model,
        ) by {
            lemma_poll_step_quiet(now, p, c, i, d, model.outbox, off, true);
        }
        assert forall|j: int| 0 <= j < k implies clear_of(
            path.push(name_or_empty(#[trigger] node.children[j].name)),
            off,
            true,
        ) by {
            lemma_clear_beside(path, name_or_empty(node.children[j].name), rel, true);
        }
        lemma_before_keeps_off::<ModTimeInfo, PollVisitor>(
            node.children,
            0,
            k,
            path,
            step.model,
            fresh,
            off,
            true,
            kept,
        );
        lemma_quiet_before_visit(node.children[k], at, m, fresh, rest);
        let arrived = reach::<ModTimeInfo, PollVisitor>(node, path, model, fresh, rel).unwrap();
        lemma_quiet_follows(model.outbox, m.outbox, arrived.outbox, off, true);
    }
}

/// A change of a path is reported whatever else the poll finds. Where the
/// walk comes to the node of a path that is gone or has become something
/// that the tree cannot hold in its place, or of a file that was written
/// or whose status was changed, it sends the one event that tells of the
/// change, and in all of the walk no other event for the path or for a
/// path below it. Afterwards the tree holds nothing at and below a path that
/// was deleted, and a file that is there still with the times that were
/// found.
///
/// The subtree is that below `node`, which has the path `path`; the path
/// in question lies `rel` below it. Of the root of the subtree itself,
/// where it was deleted, the walk says that it is to be deleted.
pub proof fn lemma_change_among_others(
    node: NodeView<ModTimeInfo>,
    path: Seq<Seq<u8>>,
    model: PollModel,
    fresh: ModTimeInfo,
    rel: Seq<Seq<u8>>,
    change: Change,
)
    requires
        node.wf(),
        reach::<ModTimeInfo, PollVisitor>(node, path, model, fresh, rel) is Some,
        node.find(rel) matches Some(target) && change.shows(
            target,
            probe(model.disk, model.root_len, path + rel),
        ),
    ensures
        ({
            let m = reach::<ModTimeInfo, PollVisitor>(node, path, model, fresh, rel).unwrap();
            let w = walk::<ModTimeInfo, PollVisitor>(node, path, model, fresh);
            let found = probe(model.disk, model.root_len, path + rel);
            &&& told_once(model.outbox, w.model.outbox, path + rel, change.kind())
            &&& quiet_since(model.outbox, m.outbox, path + rel, true)
            &&& quiet_since(
                m.outbox.send(path + rel, change.kind()),
                w.model.outbox,
                path + rel,
                true,
            )
            &&& (w.result matches Ok(RecursiveBehaviour::Delete)) == (rel.len() == 0
                && change is Deleted)
            &&& rel.len() > 0 && change is Deleted ==> forall|q: Seq<Seq<u8>>| #[trigger]
                w.node.entry(rel + q) is None
            &&& !(change is Deleted) ==> w.node.entry(rel) == Some(
                Entry { info: ModTimeInfo::of(found.unwrap().stat->Ok_0), is_dir: false },
            )
        }),
{
    let w = walk::<ModTimeInfo, PollVisitor>(node, path, model, fresh);
    let m = reach::<ModTimeInfo, PollVisitor>(node, path, model, fresh, rel).unwrap();
    let told = m.outbox.send(path + rel, change.kind());
    lemma_reach_keeps_disk(node, path, model, fresh, rel);
    lemma_quiet_before_visit(node, path, model, fresh, rel);
    lemma_quiet_after_visit(node, path, model, fresh, rel, true);
    lemma_send_tells(model.outbox, m.outbox, path + rel, change.kind());
    lemma_told_then_quiet(model.outbox, told, w.model.outbox, path + rel, change.kind());
    lemma_poll_adds_beside();
    lemma_walk_root::<ModTimeInfo, PollVisitor>(node, path, model, fresh);
    if rel.len() > 0 {
        lemma_reached_entry::<ModTimeInfo, PollVisitor>(node, path, model, fresh, rel);
        if change is Deleted {
            assert forall|q: Seq<Seq<u8>>| #[trigger] w.node.entry(rel + q) is None by {
                w.node.lemma_find_concat(rel, q);
            }
        }
    } else {
        assert(path + rel =~= path);
    }
}

/// A directory that is a directory still, and a file whose times are not
/// later than the tree holds them, stay in the tree without a word about
/// them, whatever else the poll finds: where the walk comes to the node,
/// the whole walk sends no event for the node's path, and afterwards the
/// tree holds the node with the times that were found.
///
/// The subtree is that below `node`, which has the path `path`; the path
/// in question lies `rel` below it.
pub proof fn lemma_node_at_rest_is_kept(
    node: NodeView<ModTimeInfo>,
    path: Seq<Seq<u8>>,
    model: PollModel,
    fresh: ModTimeInfo,
    rel: Seq<Seq<u8>>,
)
    requires
        node.wf(),
        reach::<ModTimeInfo, PollVisitor>(node, path, model, fresh, rel) is Some,
        node.find(rel) matches Some(target) && at_rest(
            target,
            probe(model.disk, model.root_len, path + rel),
        ),
    ensures
        ({
            let m = reach::<ModTimeInfo, PollVisitor>(node, path, model, fresh, rel).unwrap();
            let w = walk::<ModTimeInfo, PollVisitor>(node, path, model, fresh);
            let target = node.find(rel).unwrap();
            let stat = probe(model.disk, model.root_len, path + rel).unwrap().stat->Ok_0;
            &&& quiet_since(model.outbox, w.model.outbox, path + rel, false)
            &&& w.node.entry(rel) == Some(
                Entry { info: ModTimeInfo::of(stat), is_dir: target.is_dir },
            )
            &&& !(w.result matches Ok(RecursiveBehaviour::Delete))
        }),
{
    let m = reach::<ModTimeInfo, PollVisitor>(node, path, model, fresh, rel).unwrap();
    let w = walk::<ModTimeInfo, PollVisitor>(node, path, model, fresh);
    let target = node.find(rel).unwrap();
    let at = path + rel;
    let visit = poll_step(m, at, child_paths(target, at), target.info, target.is_dir);
    lemma_reach_keeps_disk(node, path, model, fresh, rel);
    lemma_quiet_after_visit(node, path, model, fresh, rel, false);
    lemma_poll_adds_beside();
    // The visit itself says nothing of the path.
    lemma_quiet_at_once(m.outbox, at, false);
    let found = probe(model.disk, model.root_len, at).unwrap();
    if target.is_dir {
        if let Ok(entries) = found.listing {
            let first = Listed { outbox: m.outbox, new: Seq::empty(), error: None };
            lemma_listed_quiet(
                at,
                child_paths(target, at),
                entries@,
                0,
                first,
                m.outbox,
                at,
                false,
            );
        }
    }
    assert(quiet_since(m.outbox, visit.model.outbox, at, false));
    lemma_quiet_follows(m.outbox, visit.model.outbox, w.model.outbox, at, false);
    lemma_quiet_before_visit(node, path, model, fresh, rel);
    lemma_quiet_below_is_quiet(model.outbox, m.outbox, at);
    lemma_quiet_follows(model.outbox, m.outbox, w.model.outbox, at, false);
    if rel.len() > 0 {
        lemma_reached_entry::<ModTimeInfo, PollVisitor>(node, path, model, fresh, rel);
        lemma_walk_root::<ModTimeInfo, PollVisitor>(node, path, model, fresh);
    } else {
        assert(at =~= path);
        lemma_walk_root::<ModTimeInfo, PollVisitor>(node, path, model, fresh);
    }
}

/// The visit of a directory that is a directory still, with a listing
/// without faults all of whose regular files and directories are children
/// of the node already, sends nothing and asks for nothing, whatever else
/// the poll finds: no `Create` is sent for an entry of the directory, and
/// the walk goes on below it.
///
/// The subtree is that below `node`, which has the path `path`; the
/// directory lies `rel` below it.
pub proof fn lemma_directory_without_news(
    node: NodeView<ModTimeInfo>,
    path: Seq<Seq<u8>>,
    model: PollModel,
    fresh: ModTimeInfo,
    rel: Seq<Seq<u8>>,
)
    requires
        reach::<ModTimeInfo, PollVisitor>(node, path, model, fresh, rel) is Some,
        node.find(rel) matches Some(target) && target.is_dir && at_rest(
            target,
            probe(model.disk, model.root_len, path + rel),
        ),
        probe(model.disk, model.root_len, path + rel).unwrap().listing matches Ok(entries)
            && no_fault(entries@, 0) && (forall|i: int|
            0 <= i < entries@.len() ==> !is_new(
                path + rel,
                child_paths(node.find(rel).unwrap(), path + rel),
                #[trigger] entries@[i],
            )),
    ensures
        ({
            let m = reach::<ModTimeInfo, PollVisitor>(node, path, model, fresh, rel).unwrap();
            let target = node.find(rel).unwrap();
            let stat = probe(model.disk, model.root_len, path + rel).unwrap().stat->Ok_0;
            poll_step(m, path + rel, child_paths(target, path + rel), target.info, true) == (Step {
                model: m,
                info: ModTimeInfo::of(stat),
                outcome: Ok::<Directive, ErrorView>(Directive::Continue),
            })
        }),
{
    let m = reach::<ModTimeInfo, PollVisitor>(node, path, model, fresh, rel).unwrap();
    let target = node.find(rel).unwrap();
    let at = path + rel;
    let found = probe(model.disk, model.root_len, at).unwrap();
    lemma_reach_keeps_disk(node, path, model, fresh, rel);
    lemma_directory_is_kept(
        m,
        at,
        child_paths(target, at),
        target.info,
        found,
        found.stat->Ok_0,
        found.listing->Ok_0@,
    );
}

/// Whether the tree holds directories at `rel` and at all paths above it,
/// and each of them is found as a directory still.
pub open spec fn way_at_rest(
    node: NodeView<ModTimeInfo>,
    found: Option<DiskNode>,
    rel: Seq<Seq<u8>>,
) -> bool {
    forall|n: int|
        0 <= n <= rel.len() ==> ((#[trigger] node.find(rel.take(n))) matches Some(above)
            && above.is_dir && at_rest(above, found_at(found, rel.take(n))))
}

/// A poll that ends without an error comes to every node below
/// directories that are directories still.
///
/// The subtree is that below `node`, which has the path `path`; the node
/// in question lies `rel` below it, and has a parent.
pub proof fn lemma_poll_comes_below_rest(
    node: NodeView<ModTimeInfo>,
    path: Seq<Seq<u8>>,
    model: PollModel,
    fresh: ModTimeInfo,
    rel: Seq<Seq<u8>>,
)
    requires
        node.wf(),
        model.root_len <= path.len(),
        rel.len() > 0,
        node.find(rel) is Some,
        way_at_rest(node, probe(model.disk, model.root_len, path), rel.drop_last()),
        walk::<ModTimeInfo, PollVisitor>(node, path, model, fresh).result is Ok,
    ensures
        reach::<ModTimeInfo, PollVisitor>(node, path, model, fresh, rel) is Some,
    decreases rel.len(),
{
    let found = probe(model.disk, model.root_len, path);
    let way = rel.drop_last();
    let none = Seq::<Seq<u8>>::empty();
    assert(way.take(0) =~= none);
    assert(node.find(way.take(0)) == Some(node));
    assert(path.skip(model.root_len as int).len() == path.len() - model.root_len);
    let children = child_paths(node, path);
    let step = poll_step(model, path, children, node.info, node.is_dir);
    assert(goes_below(step.outcome));
    let k = NodeView::position(node.children, rel[0], 0).unwrap();
    NodeView::lemma_position(node.children, rel[0], 0);
    let at = path.push(rel[0]);
    let rest = rel.drop_first();
    lemma_sweep_comes_to_all::<ModTimeInfo, PollVisitor>(
        node.children,
        0,
        k,
        path,
        step.model,
        fresh,
    );
    let m = before::<ModTimeInfo, PollVisitor>(node.children, 0, k, path, step.model, fresh)
        .unwrap();
    if rest.len() > 0 {
        let kept = |now: PollModel| now.disk == model.disk && now.root_len == model.root_len;
        assert forall|now: PollModel, p: Seq<Seq<u8>>, c: Seq<Seq<Seq<u8>>>, i: ModTimeInfo, d: bool|
            kept(now) implies kept(#[trigger] PollVisitor::step(now, p, c, i, d).model) by {}
        lemma_before_keeps::<ModTimeInfo, PollVisitor>(
            node.children,
            0,
            k,
            path,
            step.model,
            fresh,
            kept,
        );
        let disk = found.unwrap();
        let below = probe(m.disk, m.root_len, at);
        lemma_probe_child(model.disk, model.root_len, path, disk, rel[0]);
        assert forall|n: int| 0 <= n <= rest.drop_last().len() implies ((
        #[trigger] node.children[k].find(rest.drop_last().take(n))) matches Some(above)
            && above.is_dir && at_rest(above, found_at(below, rest.drop_last().take(n)))) by {
            let short = rest.drop_last().take(n);
            let long = way.take(n + 1);
            assert(long.drop_first() =~= short);
            assert(long[0] == rel[0]);
            assert(node.find(long) == node.children[k].find(short));
            assert(found_at(found, long) == found_at(below, short));
        }
        lemma_poll_comes_below_rest(node.children[k], at, m, fresh, rest);
        assert(reach::<ModTimeInfo, PollVisitor>(node, path, model, fresh, rel)
            == reach::<ModTimeInfo, PollVisitor>(node.children[k], at, m, fresh, rest));
    }
}

/// What a poll makes of a name at which a directory of the tree has no
/// child, whatever else it finds. Where the walk comes to the directory,
/// finds it a directory still with a listing that holds no name twice, and
/// ends without an error: a regular file or a directory of that name gets
/// exactly one `Create`, and the tree holds it afterwards, with its kind
/// and the payload of a new node; for any other name the walk says nothing
/// of the path and the tree does not hold it afterwards.
///
/// The subtree is that below `node`, which has the path `path`; the
/// directory lies `rel` below it.
pub proof fn lemma_entry_among_others(
    node: NodeView<ModTimeInfo>,
    path: Seq<Seq<u8>>,
    model: PollModel,
    fresh: ModTimeInfo,
    rel: Seq<Seq<u8>>,
    name: Seq<u8>,
)
    requires
        node.wf(),
        reach::<ModTimeInfo, PollVisitor>(node, path, model, fresh, rel) is Some,
        node.find(rel) matches Some(target) && target.is_dir && NodeView::position(
            target.children,
            name,
            0,
        ) is None,
        probe(model.disk, model.root_len, path + rel) matches Some(now) && now.kind == Ok::<
            FileKind,
            IoFailure,
        >(FileKind::Directory) && now.stat is Ok && (now.listing matches Ok(entries)
            && distinct_names(entries@)),
        walk::<ModTimeInfo, PollVisitor>(node, path, model, fresh).result is Ok,
    ensures
        ({
            let w = walk::<ModTimeInfo, PollVisitor>(node, path, model, fresh);
            let now = probe(model.disk, model.root_len, path + rel).unwrap();
            let at = (path + rel).push(name);
            match now.child(name) {
                Some(found) if mirrors(found.kind) => {
                    &&& told_once(model.outbox, w.model.outbox, at, WatchEventKind::Create)
                    &&& w.node.entry(rel.push(name)) == Some(
                        Entry {
                            info: fresh,
                            is_dir: found.kind == Ok::<FileKind, IoFailure>(FileKind::Directory),
                        },
                    )
                },
                _ => {
                    &&& quiet_since(model.outbox, w.model.outbox, at, true)
                    &&& w.node.entry(rel.push(name)) is None
                },
            }
        }),
{
    let w = walk::<ModTimeInfo, PollVisitor>(node, path, model, fresh);
    let m = reach::<ModTimeInfo, PollVisitor>(node, path, model, fresh, rel).unwrap();
    let target = node.find(rel).unwrap();
    let dir = path + rel;
    let at = dir.push(name);
    let now = probe(model.disk, model.root_len, dir).unwrap();
    let entries = now.listing->Ok_0@;
    let children = child_paths(target, dir);
    let one = walk::<ModTimeInfo, PollVisitor>(target, dir, m, fresh);
    let visit = poll_step(m, dir, children, target.info, target.is_dir);
    let first = Listed { outbox: m.outbox, new: Seq::empty(), error: None };
    let all = listed(dir, children, entries, 0, first);
    lemma_reach_keeps_disk(node, path, model, fresh, rel);
    lemma_poll_adds_beside();
    // The walk of the directory itself is what the tree holds there.
    if rel.len() > 0 {
        lemma_reached_walk::<ModTimeInfo, PollVisitor>(node, path, model, fresh, rel);
    } else {
        assert(dir =~= path);
    }
    assert(one.result is Ok);
    assert(all.error is None);
    assert(new_entries(visit.outcome->Ok_0) =~= all.new);
    w.node.lemma_find_concat(rel, seq![name]);
    assert(rel + seq![name] =~= rel.push(name));
    assert(w.node.find(rel) == Some(one.node));
    // The directory has no child at the path.
    NodeView::lemma_position(target.children, name, 0);
    assert(!children.contains(at)) by {
        if children.contains(at) {
            let i = choose|i: int| 0 <= i < children.len() && children[i] == at;
            assert(children[i].last() == name);
        }
    }
    let below = sweep::<ModTimeInfo, PollVisitor>(target.children, 0, dir, visit.model, fresh);
    let swept = NodeView { children: below.children, info: visit.info, ..target };
    lemma_sweep_wf::<ModTimeInfo, PollVisitor>(target.children, 0, dir, visit.model, fresh);
    assert(swept.wf());
    assert(one.node == swept.with_new(all.new, fresh));
    // Until the visit of the directory nothing is said of the path.
    lemma_quiet_before_visit(node, path, model, fresh, rel);
    assert(at.subrange(0, dir.len() as int) =~= dir);
    lemma_quiet_narrows(model.outbox, m.outbox, dir, at);
    // Nor after it.
    let kept = |after: PollModel| quiet_since(visit.model.outbox, after.outbox, at, true);
    lemma_quiet_at_once(visit.model.outbox, at, true);
    assert forall|after: PollModel, p: Seq<Seq<u8>>, c: Seq<Seq<Seq<u8>>>, i: ModTimeInfo, d: bool|
        clear_of(p, at, true) && kept(after) implies kept(
        #[trigger] PollVisitor::step(after, p, c, i, d).model,
    ) by {
        lemma_poll_step_quiet(after, p, c, i, d, visit.model.outbox, at, true);
    }
    lemma_reached_keeps_beside::<ModTimeInfo, PollVisitor>(
        node,
        path,
        model,
        fresh,
        rel,
        name,
        kept,
    );
    lemma_quiet_at_once(m.outbox, at, true);
    lemma_listed_under(dir, children, entries, 0, first);
    DiskNode::lemma_position(entries, name, 0);
    let made = match now.child(name) {
        Some(found) => mirrors(found.kind),
        None => false,
    };
    if made {
        let i = DiskNode::position(entries, name, 0).unwrap();
        let found = now.child(name).unwrap();
        let is_dir = found.kind == Ok::<FileKind, IoFailure>(FileKind::Directory);
        lemma_listed_tells(dir, children, entries, 0, first, m.outbox, i);
        let k = choose|k: int| holds_once(all.new, at, is_dir, k);
        swept.lemma_new_child_as_wanted(all.new, fresh, dir, k);
        assert(at.last() == name);
        lemma_quiet_then_told(model.outbox, m.outbox, visit.model.outbox, at, WatchEventKind::Create);
        lemma_told_then_quiet(
            model.outbox,
            visit.model.outbox,
            w.model.outbox,
            at,
            WatchEventKind::Create,
        );
    } else {
        assert forall|i: int| 0 <= i < entries.len() && (#[trigger] entries[i]).is_named(
            name,
        ) implies !mirrors(entries[i]->node.kind) by {
            let j = DiskNode::position(entries, name, 0).unwrap();
            if i != j {
                assert(entries[i]->name@ != entries[j]->name@);
            }
        }
        lemma_listed_passes(dir, children, entries, 0, first, m.outbox, name);
        assert forall|j: int| 0 <= j < all.new.len() && (#[trigger] all.new[j]).path.len()
            > 0 implies all.new[j].path.last() != name by {
            if all.new[j].path.last() == name {
                assert(all.new[j].path =~= all.new[j].path.drop_last().push(name));
            }
        }
        swept.lemma_with_new_beside(all.new, fresh, seq![name]);
        assert(NodeView::position(swept.children, name, 0) is None) by {
            NodeView::lemma_position(swept.children, name, 0);
        }
        lemma_quiet_follows(model.outbox, m.outbox, visit.model.outbox, at, true);
        lemma_quiet_follows(model.outbox, visit.model.outbox, w.model.outbox, at, true);
    }
}

/// The visitor as it is when the poll of the tree with the root `root`
/// comes to the node that lies `rel` below the root; `None` where it does
/// not come there.
pub open spec fn arrival(
    forest: ForestView<ModTimeInfo>,
    root: Seq<Seq<u8>>,
    disk: DiskNode,
    outbox: Outbox,
    fresh: ModTimeInfo,
    rel: Seq<Seq<u8>>,
) -> Option<PollModel> {
    match forest.tree(root) {
        Some(tree) => reach::<ModTimeInfo, PollVisitor>(
            tree.node,
            root,
            PollModel { disk, root_len: root.len(), outbox },
            fresh,
            rel,
        ),
        None => None,
    }
}

/// A poll of a tree that ends without an error comes to every node of the
/// tree below directories that are directories still.
pub proof fn lemma_poll_arrives(
    forest: ForestView<ModTimeInfo>,
    root: Seq<Seq<u8>>,
    disk: DiskNode,
    outbox: Outbox,
    rel: Seq<Seq<u8>>,
    fresh: ModTimeInfo,
)
    requires
        forest.wf(),
        rel.len() > 0,
        forest.tree(root) matches Some(tree) && tree.node.find(rel) is Some && way_at_rest(
            tree.node,
            Some(disk),
            rel.drop_last(),
        ),
        poll_one(forest, root, disk, outbox, fresh).error is None,
    ensures
        arrival(forest, root, disk, outbox, fresh, rel) is Some,
{
    forest.lemma_position(root, 0);
    let tree = forest.tree(root).unwrap();
    let model = PollModel { disk, root_len: root.len(), outbox };
    assert(root.skip(root.len() as int) =~= Seq::<Seq<u8>>::empty());
    lemma_poll_comes_below_rest(tree.node, root, model, fresh, rel);
}

/// The change of one path, seen from the forest, whatever else has
/// changed: where the poll of a tree comes to a path below the root that
/// has changed on disk, it sends exactly one event for that path or for a
/// path below it, which tells of the change, and keeps the tree. Afterwards the tree holds nothing at and below a path that was
/// deleted, and a file that is there still with the times that were found.
pub proof fn lemma_poll_reports_change_among_others(
    forest: ForestView<ModTimeInfo>,
    root: Seq<Seq<u8>>,
    disk: DiskNode,
    outbox: Outbox,
    rel: Seq<Seq<u8>>,
    change: Change,
    fresh: ModTimeInfo,
)
    requires
        forest.wf(),
        rel.len() > 0,
        arrival(forest, root, disk, outbox, fresh, rel) is Some,
        forest.tree(root).unwrap().node.find(rel) matches Some(target) && change.shows(
            target,
            disk.find(rel),
        ),
    ensures
        ({
            let polled = poll_one(forest, root, disk, outbox, fresh);
            &&& told_once(outbox, polled.outbox, root + rel, change.kind())
            &&& polled.forest.tree(root) matches Some(tree) && if change is Deleted {
                forall|q: Seq<Seq<u8>>| #[trigger] tree.node.entry(rel + q) is None
            } else {
                tree.node.entry(rel) == Some(
                    Entry {
                        info: ModTimeInfo::of(disk.find(rel).unwrap().stat->Ok_0),
                        is_dir: false,
                    },
                )
            }
        }),
{
    forest.lemma_position(root, 0);
    let tree = forest.tree(root).unwrap();
    let model = PollModel { disk, root_len: root.len(), outbox };
    assert((root + rel).skip(root.len() as int) =~= rel);
    lemma_change_among_others(tree.node, root, model, fresh, rel, change);
    let w = walk_tree::<ModTimeInfo, PollVisitor>(tree, model, fresh);
    lemma_walk_wf::<ModTimeInfo, PollVisitor>(tree.node, root, model, fresh);
    forest.lemma_put_tree(TreeView { node: w.node, ..tree }, root);
}

/// What has not changed, seen from the forest, whatever else has changed:
/// where the poll of a tree comes to a directory that is a directory
/// still, or to a file whose times are not later than the tree holds them,
/// it sends no event for that path, and keeps the node with the times that
/// were found.
pub proof fn lemma_poll_keeps_rest_among_others(
    forest: ForestView<ModTimeInfo>,
    root: Seq<Seq<u8>>,
    disk: DiskNode,
    outbox: Outbox,
    rel: Seq<Seq<u8>>,
    fresh: ModTimeInfo,
)
    requires
        forest.wf(),
        arrival(forest, root, disk, outbox, fresh, rel) is Some,
        forest.tree(root).unwrap().node.find(rel) matches Some(target) && at_rest(
            target,
            disk.find(rel),
        ),
    ensures
        ({
            let polled = poll_one(forest, root, disk, outbox, fresh);
            let target = forest.tree(root).unwrap().node.find(rel).unwrap();
            &&& quiet_since(outbox, polled.outbox, root + rel, false)
            &&& polled.forest.tree(root) matches Some(tree) && tree.node.entry(rel) == Some(
                Entry {
                    info: ModTimeInfo::of(disk.find(rel).unwrap().stat->Ok_0),
                    is_dir: target.is_dir,
                },
            )
        }),
{
    forest.lemma_position(root, 0);
    let tree = forest.tree(root).unwrap();
    let model = PollModel { disk, root_len: root.len(), outbox };
    assert((root + rel).skip(root.len() as int) =~= rel);
    lemma_node_at_rest_is_kept(tree.node, root, model, fresh, rel);
    let w = walk_tree::<ModTimeInfo, PollVisitor>(tree, model, fresh);
    lemma_walk_wf::<ModTimeInfo, PollVisitor>(tree.node, root, model, fresh);
    forest.lemma_put_tree(TreeView { node: w.node, ..tree }, root);
}

/// A name at which a directory has no child, seen from the forest,
/// whatever else has changed. Where the poll of a tree comes to a
/// directory that is a directory still, with a listing that holds no name
/// twice, and ends without an error: a regular file or a directory of that
/// name gets exactly one `Create`, and the tree holds it afterwards with
/// its kind; for any other name, be it a link, a socket or nothing at all,
/// the poll says nothing of the path and the tree does not hold it
/// afterwards.
pub proof fn lemma_poll_entry_among_others(
    forest: ForestView<ModTimeInfo>,
    root: Seq<Seq<u8>>,
    disk: DiskNode,
    outbox: Outbox,
    rel: Seq<Seq<u8>>,
    name: Seq<u8>,
    fresh: ModTimeInfo,
)
    requires
        forest.wf(),
        arrival(forest, root, disk, outbox, fresh, rel) is Some,
        forest.tree(root).unwrap().node.find(rel) matches Some(target) && target.is_dir
            && NodeView::position(target.children, name, 0) is None,
        disk.find(rel) matches Some(now) && now.kind == Ok::<FileKind, IoFailure>(
            FileKind::Directory,
        ) && now.stat is Ok && (now.listing matches Ok(entries) && distinct_names(entries@)),
        poll_one(forest, root, disk, outbox, fresh).error is None,
    ensures
        ({
            let polled = poll_one(forest, root, disk, outbox, fresh);
            let at = (root + rel).push(name);
            polled.forest.tree(root) matches Some(tree) && match disk.find(rel).unwrap().child(
                name,
            ) {
                Some(found) if mirrors(found.kind) => {
                    &&& told_once(outbox, polled.outbox, at, WatchEventKind::Create)
                    &&& tree.node.entry(rel.push(name)) == Some(
                        Entry {
                            info: fresh,
                            is_dir: found.kind == Ok::<FileKind, IoFailure>(FileKind::Directory),
                        },
                    )
                },
                _ => {
                    &&& quiet_since(outbox, polled.outbox, at, true)
                    &&& tree.node.entry(rel.push(name)) is None
                },
            }
        }),
{
    forest.lemma_position(root, 0);
    let tree = forest.tree(root).unwrap();
    let model = PollModel { disk, root_len: root.len(), outbox };
    assert((root + rel).skip(root.len() as int) =~= rel);
    let w = walk_tree::<ModTimeInfo, PollVisitor>(tree, model, fresh);
    lemma_walk_wf::<ModTimeInfo, PollVisitor>(tree.node, root, model, fresh);
    lemma_walk_root::<ModTimeInfo, PollVisitor>(tree.node, root, model, fresh);
    assert(disk.find(Seq::empty()) == Some(disk));
    assert(root + Seq::<Seq<u8>>::empty() =~= root);
    assert(root.skip(root.len() as int) =~= Seq::<Seq<u8>>::empty());
    lemma_entry_among_others(tree.node, root, model, fresh, rel, name);
    forest.lemma_put_tree(TreeView { node: w.node, ..tree }, root);
}

} // verus!
