//! What a poll says of a single change: where one path has changed on
//! disk since the tree was brought up to date, and nothing else has, the
//! poll sends the one event that tells of the change, and brings the tree
//! up to date again.

use crate::disk::{distinct_names, mirrors, no_fault, DiskEntry, DiskNode, FileKind};
use crate::error::{ErrorView, IoFailure};
use crate::forest::coverage::lemma_first_entry;
use crate::forest::model::{lemma_extends_step, Entry, ForestView, NodeView, TreeView};
use crate::forest::walk::{
    child_paths, lemma_sweep_one_differs, lemma_sweep_steady, lemma_walk_wf, name_or_empty, walk,
    walk_tree, with_one_walked, Directive, NewEntry, Step, Walk,
};
use crate::forest::RecursiveBehaviour;
use crate::path::extends;
use crate::watcher::laws::{is_new, lemma_directory_is_kept, lemma_listed_nothing_new};
use crate::watcher::silence::{lemma_poll_is_silent, lemma_probe_child, settled, steady};
use crate::watcher::{
    delete_step, listed, poll_one, poll_step, probe, Listed, ModTimeInfo, Outbox, PollModel,
    PollVisitor, WatchEventKind,
};
use vstd::prelude::*;

verus! {

/// The changes of a path that a tree holds.
pub enum Change {
    /// The content of a file was written.
    Written,
    /// The status of a file was changed, and its content was not.
    Chmod,
    /// The path was unlinked, has become something that no tree holds, or
    /// is a directory that can no longer be listed.
    Deleted,
}

impl Change {
    /// The kind of the event that tells of the change.
    pub open spec fn kind(self) -> WatchEventKind {
        match self {
            Change::Written => WatchEventKind::Written,
            Change::Chmod => WatchEventKind::Chmod,
            Change::Deleted => WatchEventKind::Delete,
        }
    }

    /// Whether `at`, what is found at a path now, shows this change of the
    /// path, of which the tree holds the node `target`. A file that was
    /// written or whose status was changed is a file still, and the tree
    /// holds nothing below it.
    pub open spec fn shows(self, target: NodeView<ModTimeInfo>, at: Option<DiskNode>) -> bool {
        match self {
            Change::Written => {
                &&& !target.is_dir
                &&& forall|q: Seq<Seq<u8>>| q.len() > 0 ==> #[trigger] target.entry(q) is None
                &&& at matches Some(now)
                &&& now.kind == Ok::<FileKind, IoFailure>(FileKind::Regular)
                &&& now.stat matches Ok(stat)
                &&& stat.st_mtime > target.info.mtime
            },
            Change::Chmod => {
                &&& !target.is_dir
                &&& forall|q: Seq<Seq<u8>>| q.len() > 0 ==> #[trigger] target.entry(q) is None
                &&& at matches Some(now)
                &&& now.kind == Ok::<FileKind, IoFailure>(FileKind::Regular)
                &&& now.stat matches Ok(stat)
                &&& stat.st_mtime <= target.info.mtime
                &&& stat.st_ctime > target.info.ctime
            },
            Change::Deleted => match at {
                None => true,
                Some(now) => {
                    ||| !mirrors(now.kind)
                    ||| (now.kind == Ok::<FileKind, IoFailure>(FileKind::Directory))
                        != target.is_dir
                    ||| now.stat matches Err(errno) && errno.is_gone()
                    ||| now.kind == Ok::<FileKind, IoFailure>(FileKind::Directory)
                        && target.is_dir && now.stat is Ok && (now.listing matches Err(failure)
                        && failure.kind.is_gone())
                },
            },
        }
    }
}

/// `q` lies neither at or below `rel` nor above it.
pub open spec fn apart(q: Seq<Seq<u8>>, rel: Seq<Seq<u8>>) -> bool {
    !extends(q, rel) && !extends(rel, q)
}

/// The directories on the way to `rel` could be listed without faults and
/// hold no name twice, and what they hold beside the way is steady.
pub open spec fn clear_way(found: DiskNode, rel: Seq<Seq<u8>>) -> bool
    decreases rel.len(),
{
    rel.len() > 0 ==> {
        &&& found.listing matches Ok(entries) && {
            &&& no_fault(entries@, 0)
            &&& distinct_names(entries@)
            &&& forall|i: int|
                0 <= i < entries@.len() && (#[trigger] entries@[i]) is Found && mirrors(
                    entries@[i]->node.kind,
                ) && entries@[i]->name@ != rel[0] ==> steady(entries@[i]->node)
        }
        &&& rel.len() > 1 ==> (found.child(rel[0]) matches Some(below) && clear_way(
            below,
            rel.drop_first(),
        ))
    }
}

/// Apart from `rel`, the tree below `node` records what is found now: the
/// directories above `rel` are directories still, the way to `rel` is
/// clear, and every path that lies neither above nor below `rel` is
/// recorded as it is found.
pub open spec fn fits_around(
    node: NodeView<ModTimeInfo>,
    found: DiskNode,
    rel: Seq<Seq<u8>>,
) -> bool {
    &&& clear_way(found, rel)
    &&& forall|q: Seq<Seq<u8>>| apart(q, rel) ==> #[trigger] node.entry(q) == settled(found, q)
    &&& forall|q: Seq<Seq<u8>>|
        extends(rel, q) && q != rel ==> (#[trigger] node.entry(q) matches Some(e) && e.is_dir) && (
        settled(found, q) matches Some(e) && e.is_dir)
}

/// What is found at `rel` below what is found at a path, if that is found.
pub open spec fn found_at(found: Option<DiskNode>, rel: Seq<Seq<u8>>) -> Option<DiskNode> {
    match found {
        Some(node) => node.find(rel),
        None => None,
    }
}

/// What a tree records about `q` after a poll found the change `change`
/// at `rel`: what is found now, but that nothing is left at and below a
/// path that was deleted.
pub open spec fn entry_after_change(
    change: Change,
    found: Option<DiskNode>,
    rel: Seq<Seq<u8>>,
    q: Seq<Seq<u8>>,
) -> Option<Entry<ModTimeInfo>> {
    if change is Deleted && extends(q, rel) {
        None
    } else {
        match found {
            Some(node) => settled(node, q),
            None => None,
        }
    }
}

/// Taking the first component off two paths changes neither whether they
/// lie apart nor whether the one lies above the other.
proof fn lemma_apart_step(name: Seq<u8>, q: Seq<Seq<u8>>, rel: Seq<Seq<u8>>)
    requires
        rel.len() > 0,
    ensures
        apart(seq![name] + q, seq![name] + rel) <==> apart(q, rel),
        extends(seq![name] + q, seq![name] + rel) <==> extends(q, rel),
        extends(seq![name] + rel, seq![name] + q) <==> extends(rel, q),
        seq![name] + q == seq![name] + rel <==> q == rel,
        (seq![name] + q).drop_first() == q,
        (seq![name] + q)[0] == name,
{
    let a = seq![name] + q;
    let b = seq![name] + rel;
    assert(a.drop_first() =~= q);
    assert(b.drop_first() =~= rel);
    lemma_extends_step(a, b);
    lemma_extends_step(b, a);
}

/// A path whose first component is not that of `rel` lies apart from
/// `rel`.
proof fn lemma_apart_beside(q: Seq<Seq<u8>>, rel: Seq<Seq<u8>>)
    requires
        q.len() > 0,
        rel.len() > 0,
        q[0] != rel[0],
    ensures
        apart(q, rel),
{
    lemma_extends_step(q, rel);
    lemma_extends_step(rel, q);
}

/// The poll of a child beside the way to the one path that has changed
/// sends nothing and leaves the child as it is.
proof fn lemma_beside_is_silent(
    node: NodeView<ModTimeInfo>,
    path: Seq<Seq<u8>>,
    model: PollModel,
    found: DiskNode,
    name: Seq<u8>,
    k: int,
    fresh: ModTimeInfo,
)
    requires
        node.wf(),
        probe(model.disk, model.root_len, path) == Some(found),
        found.kind == Ok::<FileKind, IoFailure>(FileKind::Directory),
        clear_way(found, seq![name]),
        forall|q: Seq<Seq<u8>>|
            q.len() > 0 && q[0] != name ==> #[trigger] node.entry(q) == settled(found, q),
        0 <= k < node.children.len(),
        node.children[k].name != Some(name),
    ensures
        walk::<ModTimeInfo, PollVisitor>(
            node.children[k],
            path.push(name_or_empty(node.children[k].name)),
            model,
            fresh,
        ) == (Walk { node: node.children[k], model, result: Ok(RecursiveBehaviour::Nothing) }),
{
    reveal_with_fuel(settled, 3);
    let entries = found.listing->Ok_0@;
    let child = node.children[k];
    let beside = child.name.unwrap();
    node.lemma_child_entry(k, Seq::empty());
    assert(seq![beside] + Seq::<Seq<u8>>::empty() =~= seq![beside]);
    assert(node.entry(seq![beside]) == settled(found, seq![beside]));
    assert(seq![beside].drop_first() =~= Seq::<Seq<u8>>::empty());
    let below = found.child(beside).unwrap();
    DiskNode::lemma_position(entries, beside, 0);
    lemma_probe_child(model.disk, model.root_len, path, found, beside);
    assert forall|rel: Seq<Seq<u8>>| #[trigger] child.entry(rel) == settled(below, rel) by {
        let full = seq![beside] + rel;
        node.lemma_child_entry(k, rel);
        assert(full[0] == beside);
        assert(full.drop_first() =~= rel);
        assert(node.entry(full) == settled(found, full));
    }
    lemma_poll_is_silent(child, path.push(beside), model, below, fresh);
}

/// The visit of a directory on the way to the one path that has changed,
/// and the walk of its children: nothing is new in the directory, the
/// children beside the way are left as they are, and the child on the way
/// is left as its own walk leaves it.
proof fn lemma_spine_step(
    node: NodeView<ModTimeInfo>,
    path: Seq<Seq<u8>>,
    model: PollModel,
    found: DiskNode,
    name: Seq<u8>,
    at: int,
    one: Walk<PollModel, ModTimeInfo>,
    fresh: ModTimeInfo,
)
    requires
        node.wf(),
        node.is_dir,
        probe(model.disk, model.root_len, path) == Some(found),
        found.kind == Ok::<FileKind, IoFailure>(FileKind::Directory),
        found.stat is Ok,
        clear_way(found, seq![name]),
        NodeView::position(node.children, name, 0) == Some(at),
        forall|q: Seq<Seq<u8>>|
            q.len() > 0 && q[0] != name ==> #[trigger] node.entry(q) == settled(found, q),
        walk::<ModTimeInfo, PollVisitor>(node.children[at], path.push(name), model, fresh) == one,
        one.result is Ok,
        one.model.disk == model.disk,
        one.model.root_len == model.root_len,
    ensures
        walk::<ModTimeInfo, PollVisitor>(node, path, model, fresh) == (Walk {
            node: NodeView {
                info: ModTimeInfo::of(found.stat->Ok_0),
                children: with_one_walked(node.children, at, one),
                ..node
            },
            model: one.model,
            result: Ok(RecursiveBehaviour::Nothing),
        }),
{
    reveal_with_fuel(settled, 3);
    reveal_with_fuel(DiskNode::calm, 2);
    let entries = found.listing->Ok_0@;
    let paths = child_paths(node, path);
    let stat = found.stat->Ok_0;
    NodeView::lemma_position(node.children, name, 0);
    assert forall|i: int| 0 <= i < entries.len() implies !is_new(path, paths, #[trigger] entries[i]) by {
        if entries[i] is Found && mirrors(entries[i]->node.kind) {
            let entry_name = entries[i]->name@;
            if entry_name == name {
                assert(paths[at] == path.push(name));
            } else {
                let q = seq![entry_name];
                lemma_first_entry(entries, i);
                assert(q.drop_first() =~= Seq::<Seq<u8>>::empty());
                assert(node.entry(q) == settled(found, q));
                assert(settled(entries[i]->node, q.drop_first()) is Some);
                NodeView::lemma_position(node.children, entry_name, 0);
                let k = NodeView::position(node.children, entry_name, 0).unwrap();
                assert(paths[k] == path.push(entry_name));
            }
        }
    }
    lemma_directory_is_kept(model, path, paths, node.info, found, stat, entries);
    assert forall|k: int| 0 <= k < at implies walk::<ModTimeInfo, PollVisitor>(
        #[trigger] node.children[k],
        path.push(name_or_empty(node.children[k].name)),
        model,
        fresh,
    ) == (Walk { node: node.children[k], model, result: Ok(RecursiveBehaviour::Nothing) }) by {
        assert(node.children[k].name != node.children[at].name);
        lemma_beside_is_silent(node, path, model, found, name, k, fresh);
    }
    assert forall|k: int| at < k < node.children.len() implies walk::<ModTimeInfo, PollVisitor>(
        #[trigger] node.children[k],
        path.push(name_or_empty(node.children[k].name)),
        one.model,
        fresh,
    ) == (Walk {
        node: node.children[k],
        model: one.model,
        result: Ok(RecursiveBehaviour::Nothing),
    }) by {
        assert(node.children[at].name != node.children[k].name);
        lemma_beside_is_silent(node, path, one.model, found, name, k, fresh);
    }
    lemma_sweep_one_differs::<ModTimeInfo, PollVisitor>(
        node.children,
        0,
        path,
        model,
        fresh,
        at,
        one,
    );
    let left = with_one_walked(node.children, at, one);
    assert(left.subrange(0, left.len() as int) =~= left);
}

/// Where one path that a tree holds has changed on disk, and all else is
/// as the tree records it, the poll of the tree sends exactly one event,
/// which tells of the change of that path: `Written` for a file whose
/// content is later than was recorded, `Chmod` for a file whose status is
/// later and whose content is not, and `Delete` for a path that is gone
/// or has become something that the tree cannot hold in its place.
/// Afterwards the tree records what is found now, and nothing at and below
/// a path that was deleted.
///
/// The subtree is that below `node`, which has the path `path`; the path
/// that has changed lies `rel` below it.
pub proof fn lemma_single_change(
    node: NodeView<ModTimeInfo>,
    path: Seq<Seq<u8>>,
    model: PollModel,
    found: Option<DiskNode>,
    rel: Seq<Seq<u8>>,
    change: Change,
    fresh: ModTimeInfo,
)
    requires
        node.wf(),
        probe(model.disk, model.root_len, path) == found,
        node.find(rel) is Some,
        rel.len() > 0 ==> found is Some && fits_around(node, found.unwrap(), rel),
        change.shows(node.find(rel).unwrap(), found_at(found, rel)),
    ensures
        ({
            let w = walk::<ModTimeInfo, PollVisitor>(node, path, model, fresh);
            &&& w.model == (PollModel {
                outbox: model.outbox.send(path + rel, change.kind()),
                ..model
            })
            &&& w.result == Ok::<RecursiveBehaviour, ErrorView>(
                if rel.len() == 0 && change is Deleted {
                    RecursiveBehaviour::Delete
                } else {
                    RecursiveBehaviour::Nothing
                },
            )
            &&& w.node.wf()
            &&& w.node.name == node.name
            &&& w.result == Ok::<RecursiveBehaviour, ErrorView>(RecursiveBehaviour::Nothing)
                ==> forall|q: Seq<Seq<u8>>| #[trigger]
                w.node.entry(q) == entry_after_change(change, found, rel, q)
        }),
    decreases rel.len(),
{
    reveal_with_fuel(settled, 3);
    let w = walk::<ModTimeInfo, PollVisitor>(node, path, model, fresh);
    lemma_walk_wf::<ModTimeInfo, PollVisitor>(node, path, model, fresh);
    if rel.len() == 0 {
        assert(path + rel =~= path);
        assert(node.find(rel) == Some(node));
        match change {
            Change::Deleted => {
                let step = poll_step(model, path, child_paths(node, path), node.info, node.is_dir);
                assert(step.outcome == Ok::<Directive, ErrorView>(Directive::Delete));
                assert(step.model == delete_step(model, path, node.info).model);
            },
            _ => {
                let now = found.unwrap();
                let seen = NodeView { info: ModTimeInfo::of(now.stat->Ok_0), ..node };
                assert(w.node == seen);
                assert forall|q: Seq<Seq<u8>>| #[trigger] w.node.entry(q) == entry_after_change(
                    change,
                    found,
                    rel,
                    q,
                ) by {
                    if q.len() > 0 {
                        assert(seen.find(q) == node.find(q));
                        assert(node.entry(q) is None);
                    }
                }
            },
        }
    } else {
        let dir = found.unwrap();
        let name = rel[0];
        let rest = rel.drop_first();
        assert(rel =~= seq![name] + rest);
        assert(extends(rel, Seq::<Seq<u8>>::empty())) by {
            assert(rel.subrange(0, 0) =~= Seq::<Seq<u8>>::empty());
        }
        assert(node.entry(Seq::empty()) matches Some(e) && e.is_dir);
        assert(settled(dir, Seq::empty()) matches Some(e) && e.is_dir);
        NodeView::lemma_position(node.children, name, 0);
        let at = NodeView::position(node.children, name, 0).unwrap();
        let child = node.children[at];
        let below = dir.child(name);
        lemma_probe_child(model.disk, model.root_len, path, dir, name);
        assert(found_at(below, rest) == found_at(found, rel));
        if rest.len() > 0 {
            assert(extends(rel, seq![name]) && seq![name] != rel) by {
                assert(rel.subrange(0, 1) =~= seq![name]);
            }
            assert(node.entry(seq![name]) matches Some(e) && e.is_dir);
            assert(settled(dir, seq![name]) matches Some(e) && e.is_dir);
            assert(seq![name].drop_first() =~= Seq::<Seq<u8>>::empty());
            let sub = below.unwrap();
            assert forall|q: Seq<Seq<u8>>| apart(q, rest) implies #[trigger] child.entry(q)
                == settled(sub, q) by {
                lemma_apart_step(name, q, rest);
                node.lemma_child_entry(at, q);
                assert(node.entry(seq![name] + q) == settled(dir, seq![name] + q));
            }
            assert forall|q: Seq<Seq<u8>>| extends(rest, q) && q != rest implies (
            #[trigger] child.entry(q) matches Some(e) && e.is_dir) && (settled(sub, q) matches Some(
                e,
            ) && e.is_dir) by {
                lemma_apart_step(name, q, rest);
                node.lemma_child_entry(at, q);
                assert(node.entry(seq![name] + q) matches Some(e) && e.is_dir);
            }
            assert(fits_around(child, sub, rest));
        }
        node.lemma_child_entry(at, rest);
        lemma_single_change(child, path.push(name), model, below, rest, change, fresh);
        let one = walk::<ModTimeInfo, PollVisitor>(child, path.push(name), model, fresh);
        assert(path.push(name) + rest =~= path + rel);
        assert(clear_way(dir, seq![name])) by {
            assert(seq![name][0] == name);
        }
        assert forall|q: Seq<Seq<u8>>| q.len() > 0 && q[0] != name implies #[trigger] node.entry(q)
            == settled(dir, q) by {
            lemma_apart_beside(q, rel);
        }
        lemma_spine_step(node, path, model, dir, name, at, one, fresh);
        let now = ModTimeInfo::of(dir.stat->Ok_0);
        assert forall|q: Seq<Seq<u8>>| #[trigger] w.node.entry(q) == entry_after_change(
            change,
            found,
            rel,
            q,
        ) by {
            if one.result == Ok::<RecursiveBehaviour, ErrorView>(RecursiveBehaviour::Delete) {
                node.lemma_child_removed(at, now, q);
            } else {
                node.lemma_child_replaced(at, one.node, now, q);
            }
            if q.len() > 0 {
                lemma_extends_step(q, rel);
                if q[0] == name {
                    assert(q =~= seq![name] + q.drop_first());
                    if rest.len() > 0 {
                        lemma_apart_step(name, q.drop_first(), rest);
                    } else {
                        assert(extends(q.drop_first(), rest)) by {
                            assert(q.drop_first().subrange(0, 0) =~= rest);
                        }
                    }
                    if one.result != Ok::<RecursiveBehaviour, ErrorView>(
                        RecursiveBehaviour::Delete,
                    ) {
                        assert(one.node.entry(q.drop_first()) == entry_after_change(
                            change,
                            below,
                            rest,
                            q.drop_first(),
                        ));
                    }
                } else {
                    lemma_apart_beside(q, rel);
                }
            }
        }
    }
}

/// In a listing without faults in which one entry alone is new, the
/// search finds that entry and sends one `Create` event, for its path.
proof fn lemma_listed_one_new(
    dir: Seq<Seq<u8>>,
    children: Seq<Seq<Seq<u8>>>,
    entries: Seq<DiskEntry>,
    from: int,
    so_far: Listed,
    at: int,
)
    requires
        0 <= from <= at < entries.len(),
        no_fault(entries, from),
        so_far.error is None,
        is_new(dir, children, entries[at]),
        forall|i: int|
            from <= i < entries.len() && i != at ==> !is_new(dir, children, #[trigger] entries[i]),
    ensures
        listed(dir, children, entries, from, so_far) == (Listed {
            outbox: so_far.outbox.send(dir.push(entries[at]->name@), WatchEventKind::Create),
            new: so_far.new.push(
                NewEntry {
                    path: dir.push(entries[at]->name@),
                    is_dir: entries[at]->node.kind == Ok::<FileKind, IoFailure>(
                        FileKind::Directory,
                    ),
                },
            ),
            error: None,
        }),
    decreases at - from,
{
    if from < at {
        assert(!is_new(dir, children, entries[from]));
        lemma_listed_one_new(dir, children, entries, from + 1, so_far, at);
    } else {
        let next = Listed {
            outbox: so_far.outbox.send(dir.push(entries[at]->name@), WatchEventKind::Create),
            new: so_far.new.push(
                NewEntry {
                    path: dir.push(entries[at]->name@),
                    is_dir: entries[at]->node.kind == Ok::<FileKind, IoFailure>(
                        FileKind::Directory,
                    ),
                },
            ),
            error: None,
        };
        lemma_listed_nothing_new(dir, children, entries, at + 1, next);
    }
}

/// What a tree records about `q` after a poll found the new path `rel`,
/// as a directory or not: the new path with the payload `fresh`, nothing
/// below it, and else what is found now.
pub open spec fn entry_after_creation(
    found: DiskNode,
    rel: Seq<Seq<u8>>,
    is_dir: bool,
    fresh: ModTimeInfo,
    q: Seq<Seq<u8>>,
) -> Option<Entry<ModTimeInfo>> {
    if q == rel {
        Some(Entry { info: fresh, is_dir })
    } else if extends(q, rel) {
        None
    } else {
        settled(found, q)
    }
}

/// Where one regular file or directory that a tree does not hold has
/// appeared on disk in a directory that the tree holds, and all else is as
/// the tree records it, the poll of the tree sends exactly one event, a
/// `Create` for the new path. Afterwards the tree holds the new path, with
/// the default payload and nothing below it, and records all else as it is
/// found now.
///
/// The subtree is that below `node`, which has the path `path`; the new
/// path lies `rel` below it.
pub proof fn lemma_single_creation(
    node: NodeView<ModTimeInfo>,
    path: Seq<Seq<u8>>,
    model: PollModel,
    found: DiskNode,
    rel: Seq<Seq<u8>>,
    fresh: ModTimeInfo,
)
    requires
        node.wf(),
        probe(model.disk, model.root_len, path) == Some(found),
        rel.len() > 0,
        fits_around(node, found, rel),
        node.find(rel) is None,
        found.find(rel) matches Some(now) && mirrors(now.kind),
    ensures
        ({
            let w = walk::<ModTimeInfo, PollVisitor>(node, path, model, fresh);
            let is_dir = found.find(rel).unwrap().kind == Ok::<FileKind, IoFailure>(
                FileKind::Directory,
            );
            &&& w.model == (PollModel {
                outbox: model.outbox.send(path + rel, WatchEventKind::Create),
                ..model
            })
            &&& w.result == Ok::<RecursiveBehaviour, ErrorView>(RecursiveBehaviour::Nothing)
            &&& w.node.wf()
            &&& w.node.name == node.name
            &&& forall|q: Seq<Seq<u8>>| #[trigger]
                w.node.entry(q) == entry_after_creation(found, rel, is_dir, fresh, q)
        }),
    decreases rel.len(),
{
    reveal_with_fuel(settled, 3);
    reveal_with_fuel(DiskNode::calm, 2);
    let w = walk::<ModTimeInfo, PollVisitor>(node, path, model, fresh);
    lemma_walk_wf::<ModTimeInfo, PollVisitor>(node, path, model, fresh);
    let name = rel[0];
    let rest = rel.drop_first();
    let is_dir = found.find(rel).unwrap().kind == Ok::<FileKind, IoFailure>(FileKind::Directory);
    assert(rel =~= seq![name] + rest);
    assert(extends(rel, Seq::<Seq<u8>>::empty())) by {
        assert(rel.subrange(0, 0) =~= Seq::<Seq<u8>>::empty());
    }
    assert(node.entry(Seq::empty()) matches Some(e) && e.is_dir);
    assert(settled(found, Seq::empty()) matches Some(e) && e.is_dir);
    let now = ModTimeInfo::of(found.stat->Ok_0);
    let entries = found.listing->Ok_0@;
    let below = found.child(name);
    lemma_probe_child(model.disk, model.root_len, path, found, name);
    assert(clear_way(found, seq![name])) by {
        assert(seq![name][0] == name);
    }
    assert forall|q: Seq<Seq<u8>>| q.len() > 0 && q[0] != name implies #[trigger] node.entry(q)
        == settled(found, q) by {
        lemma_apart_beside(q, rel);
    }
    if rest.len() == 0 {
        assert(rel =~= seq![name]);
        let paths = child_paths(node, path);
        assert(rest =~= Seq::<Seq<u8>>::empty());
        NodeView::lemma_position(node.children, name, 0);
        assert(NodeView::position(node.children, name, 0) is None) by {
            match NodeView::position(node.children, name, 0) {
                Some(i) => {
                    assert(node.children[i].find(rest) == Some(node.children[i]));
                    assert(node.find(rel) == node.children[i].find(rest));
                },
                None => {},
            }
        }
        assert forall|k: int| 0 <= k < node.children.len() implies (
        #[trigger] node.children[k]).name != Some(name) by {}
        DiskNode::lemma_position(entries, name, 0);
        assert(found.child(name) is Some) by {
            assert(found.find(rel) == match found.child(name) {
                Some(sub) => sub.find(rest),
                None => None,
            });
        }
        let at = DiskNode::position(entries, name, 0).unwrap();
        assert(entries[at] is Found && entries[at]->name@ == name);
        assert(found.child(name) == Some(entries[at]->node));
        assert(found.find(rel) == Some(entries[at]->node)) by {
            assert(entries[at]->node.find(rest) == Some(entries[at]->node));
        }
        assert(mirrors(entries[at]->node.kind));
        assert(!paths.contains(path.push(name))) by {
            if paths.contains(path.push(name)) {
                let k = choose|k: int| 0 <= k < paths.len() && paths[k] == path.push(name);
                assert(paths[k] == path.push(name_or_empty(node.children[k].name)));
                assert(paths[k].last() == name_or_empty(node.children[k].name));
                assert(path.push(name).last() == name);
                assert(node.children[k].name == Some(name));
            }
        }
        assert(is_new(path, paths, entries[at]));
        assert forall|i: int| 0 <= i < entries.len() && i != at implies !is_new(
            path,
            paths,
            #[trigger] entries[i],
        ) by {
            if entries[i] is Found && mirrors(entries[i]->node.kind) {
                let entry_name = entries[i]->name@;
                assert(entry_name != name) by {
                    if i < at {
                        assert(entries[i]->name@ != entries[at]->name@);
                    } else {
                        assert(entries[at]->name@ != entries[i]->name@);
                    }
                }
                let q = seq![entry_name];
                lemma_first_entry(entries, i);
                assert(q.drop_first() =~= Seq::<Seq<u8>>::empty());
                assert(node.entry(q) == settled(found, q));
                assert(settled(entries[i]->node, q.drop_first()) is Some);
                NodeView::lemma_position(node.children, entry_name, 0);
                let k = NodeView::position(node.children, entry_name, 0).unwrap();
                assert(paths[k] == path.push(entry_name));
            }
        }
        let start = Listed { outbox: model.outbox, new: Seq::empty(), error: None };
        lemma_listed_one_new(path, paths, entries, 0, start, at);
        let entry = NewEntry { path: path.push(name), is_dir };
        let told = PollModel {
            outbox: model.outbox.send(path.push(name), WatchEventKind::Create),
            ..model
        };
        assert(Seq::<NewEntry>::empty().push(entry) =~= seq![entry]);
        assert(poll_step(model, path, paths, node.info, true) == (Step {
            model: told,
            info: now,
            outcome: Ok(Directive::AddAndContinue(seq![entry])),
        }));
        assert forall|k: int| 0 <= k < node.children.len() implies walk::<ModTimeInfo, PollVisitor>(
            #[trigger] node.children[k],
            path.push(name_or_empty(node.children[k].name)),
            told,
            fresh,
        ) == (Walk { node: node.children[k], model: told, result: Ok(RecursiveBehaviour::Nothing) }) by {
            lemma_beside_is_silent(node, path, told, found, name, k, fresh);
        }
        lemma_sweep_steady::<ModTimeInfo, PollVisitor>(
            node.children,
            0,
            path,
            told,
            fresh,
            node.children,
        );
        assert(node.children.subrange(0, node.children.len() as int) =~= node.children);
        let seen = NodeView { info: now, ..node };
        assert(seq![entry].drop_last() =~= Seq::<NewEntry>::empty());
        assert(seq![entry].last() == entry);
        assert(entry.path.last() == name);
        assert(seen.with_new(seq![entry].drop_last(), fresh) == seen);
        assert(seen.with_new(seq![entry], fresh) == seen.put_new(entry, fresh));
        let leaf = NodeView::leaf(Some(name), fresh, is_dir);
        assert(w.node == seen.put_child(leaf));
        assert(path.push(name) =~= path + rel);
        assert forall|q: Seq<Seq<u8>>| #[trigger] w.node.entry(q) == entry_after_creation(
            found,
            rel,
            is_dir,
            fresh,
            q,
        ) by {
            seen.lemma_put_child(leaf, q);
            if q.len() > 0 {
                lemma_extends_step(q, rel);
                lemma_extends_step(rel, q);
                assert(seen.find(q) == node.find(q));
                NodeView::lemma_leaf_find(Some(name), fresh, is_dir, q.drop_first());
                if q[0] != name {
                    lemma_apart_beside(q, rel);
                    assert(node.entry(q) == settled(found, q));
                } else if q.len() == 1 {
                    assert(q =~= rel);
                } else {
                    assert(extends(q, rel)) by {
                        assert(q.subrange(0, 1) =~= rel);
                    }
                }
            } else {
                assert(q =~= Seq::<Seq<u8>>::empty());
                assert(seen.entry(q) == Some(Entry { info: now, is_dir: true }));
            }
        }
    } else {
        assert(extends(rel, seq![name]) && seq![name] != rel) by {
            assert(rel.subrange(0, 1) =~= seq![name]);
        }
        assert(node.entry(seq![name]) matches Some(e) && e.is_dir);
        assert(settled(found, seq![name]) matches Some(e) && e.is_dir);
        assert(seq![name].drop_first() =~= Seq::<Seq<u8>>::empty());
        NodeView::lemma_position(node.children, name, 0);
        let at = NodeView::position(node.children, name, 0).unwrap();
        let child = node.children[at];
        let sub = below.unwrap();
        assert forall|q: Seq<Seq<u8>>| apart(q, rest) implies #[trigger] child.entry(q) == settled(
            sub,
            q,
        ) by {
            lemma_apart_step(name, q, rest);
            node.lemma_child_entry(at, q);
            assert(node.entry(seq![name] + q) == settled(found, seq![name] + q));
        }
        assert forall|q: Seq<Seq<u8>>| extends(rest, q) && q != rest implies (
        #[trigger] child.entry(q) matches Some(e) && e.is_dir) && (settled(sub, q) matches Some(e)
            && e.is_dir) by {
            lemma_apart_step(name, q, rest);
            node.lemma_child_entry(at, q);
            assert(node.entry(seq![name] + q) matches Some(e) && e.is_dir);
        }
        assert(fits_around(child, sub, rest));
        node.lemma_child_entry(at, rest);
        lemma_single_creation(child, path.push(name), model, sub, rest, fresh);
        let one = walk::<ModTimeInfo, PollVisitor>(child, path.push(name), model, fresh);
        assert(path.push(name) + rest =~= path + rel);
        lemma_spine_step(node, path, model, found, name, at, one, fresh);
        assert forall|q: Seq<Seq<u8>>| #[trigger] w.node.entry(q) == entry_after_creation(
            found,
            rel,
            is_dir,
            fresh,
            q,
        ) by {
            node.lemma_child_replaced(at, one.node, now, q);
            if q.len() > 0 {
                lemma_extends_step(q, rel);
                if q[0] == name {
                    assert(q =~= seq![name] + q.drop_first());
                    lemma_apart_step(name, q.drop_first(), rest);
                    assert(one.node.entry(q.drop_first()) == entry_after_creation(
                        sub,
                        rest,
                        is_dir,
                        fresh,
                        q.drop_first(),
                    ));
                } else {
                    lemma_apart_beside(q, rel);
                }
            }
        }
    }
}

/// Where a file that a tree holds was replaced on disk by a directory of
/// the same name, or a directory by a file, and all else is as the tree
/// records it, the poll sends a `Delete` for the path and no other event,
/// and the poll after it sends a `Create` for the path and no other event.
pub proof fn lemma_type_change_is_delete_then_create(
    node: NodeView<ModTimeInfo>,
    path: Seq<Seq<u8>>,
    first: PollModel,
    second: PollModel,
    found: DiskNode,
    rel: Seq<Seq<u8>>,
    fresh: ModTimeInfo,
)
    requires
        node.wf(),
        probe(first.disk, first.root_len, path) == Some(found),
        second.disk == first.disk,
        second.root_len == first.root_len,
        rel.len() > 0,
        fits_around(node, found, rel),
        node.find(rel) matches Some(target) && found.find(rel) matches Some(now) && now.kind == Ok::<
            FileKind,
            IoFailure,
        >(
            if target.is_dir {
                FileKind::Regular
            } else {
                FileKind::Directory
            },
        ),
    ensures
        ({
            let w1 = walk::<ModTimeInfo, PollVisitor>(node, path, first, fresh);
            let w2 = walk::<ModTimeInfo, PollVisitor>(w1.node, path, second, fresh);
            &&& w1.model.outbox == first.outbox.send(path + rel, WatchEventKind::Delete)
            &&& w1.result == Ok::<RecursiveBehaviour, ErrorView>(RecursiveBehaviour::Nothing)
            &&& w1.node.find(rel) is None
            &&& w2.model.outbox == second.outbox.send(path + rel, WatchEventKind::Create)
            &&& w2.result == Ok::<RecursiveBehaviour, ErrorView>(RecursiveBehaviour::Nothing)
            &&& w2.node.entry(rel) == Some(
                Entry { info: fresh, is_dir: !node.find(rel).unwrap().is_dir },
            )
        }),
{
    lemma_single_change(node, path, first, Some(found), rel, Change::Deleted, fresh);
    let w1 = walk::<ModTimeInfo, PollVisitor>(node, path, first, fresh);
    assert(extends(rel, rel)) by {
        assert(rel.subrange(0, rel.len() as int) =~= rel);
    }
    assert(w1.node.entry(rel) == entry_after_change(Change::Deleted, Some(found), rel, rel));
    assert forall|q: Seq<Seq<u8>>| apart(q, rel) implies #[trigger] w1.node.entry(q) == settled(
        found,
        q,
    ) by {
        assert(w1.node.entry(q) == entry_after_change(Change::Deleted, Some(found), rel, q));
    }
    assert forall|q: Seq<Seq<u8>>| extends(rel, q) && q != rel implies (
    #[trigger] w1.node.entry(q) matches Some(e) && e.is_dir) && (settled(found, q) matches Some(e)
        && e.is_dir) by {
        assert(w1.node.entry(q) == entry_after_change(Change::Deleted, Some(found), rel, q));
        assert(node.entry(q) matches Some(e) && e.is_dir);
        if extends(q, rel) {
            assert(q =~= rel) by {
                assert(q.subrange(0, rel.len() as int) =~= q);
                assert(rel.subrange(0, q.len() as int) =~= rel);
            }
        }
    }
    lemma_single_creation(w1.node, path, second, found, rel, fresh);
    let w2 = walk::<ModTimeInfo, PollVisitor>(w1.node, path, second, fresh);
    assert(w2.node.entry(rel) == entry_after_creation(
        found,
        rel,
        found.find(rel).unwrap().kind == Ok::<FileKind, IoFailure>(FileKind::Directory),
        fresh,
        rel,
    ));
}

/// The single change, seen from the forest: where one path below the root
/// of a tree has changed on disk, and all else is as the tree records it,
/// the poll of the tree sends the one event that tells of the change,
/// keeps the tree, and leaves it recording what is found now, and nothing
/// at and below a path that was deleted.
pub proof fn lemma_poll_reports_change(
    forest: ForestView<ModTimeInfo>,
    root: Seq<Seq<u8>>,
    disk: DiskNode,
    outbox: Outbox,
    rel: Seq<Seq<u8>>,
    change: Change,
    fresh: ModTimeInfo,
)
    requires
        forest.wf(),
        forest.has_root(root),
        rel.len() > 0,
        fits_around(forest.tree(root).unwrap().node, disk, rel),
        forest.tree(root).unwrap().node.find(rel) is Some,
        change.shows(forest.tree(root).unwrap().node.find(rel).unwrap(), disk.find(rel)),
    ensures
        ({
            let polled = poll_one(forest, root, disk, outbox, fresh);
            &&& polled.outbox == outbox.send(root + rel, change.kind())
            &&& polled.error is None
            &&& polled.forest.wf()
            &&& polled.forest.has_root(root)
            &&& forall|other: Seq<Seq<u8>>|
                other != root ==> #[trigger] polled.forest.tree(other) == forest.tree(other)
            &&& forall|q: Seq<Seq<u8>>| #[trigger]
                polled.forest.tree(root).unwrap().node.entry(q) == entry_after_change(
                    change,
                    Some(disk),
                    rel,
                    q,
                )
        }),
{
    forest.lemma_position(root, 0);
    let tree = forest.tree(root).unwrap();
    let model = PollModel { disk, root_len: root.len(), outbox };
    assert(root.skip(root.len() as int) =~= Seq::<Seq<u8>>::empty());
    lemma_single_change(tree.node, root, model, Some(disk), rel, change, fresh);
    let w = walk_tree::<ModTimeInfo, PollVisitor>(tree, model, fresh);
    let walked = TreeView { node: w.node, ..tree };
    assert forall|other: Seq<Seq<u8>>| true implies #[trigger] forest.put_tree(walked).tree(other)
        == if other == root {
        Some(walked)
    } else {
        forest.tree(other)
    } by {
        forest.lemma_put_tree(walked, other);
    }
    forest.lemma_put_tree(walked, root);
}

/// The single creation, seen from the forest: where one regular file or
/// directory has appeared on disk in a directory that a tree holds, and all
/// else is as the tree records it, the poll of the tree sends a `Create`
/// for the new path and no other event, and leaves the tree holding the
/// new path and recording all else as it is found now.
pub proof fn lemma_poll_reports_creation(
    forest: ForestView<ModTimeInfo>,
    root: Seq<Seq<u8>>,
    disk: DiskNode,
    outbox: Outbox,
    rel: Seq<Seq<u8>>,
    fresh: ModTimeInfo,
)
    requires
        forest.wf(),
        forest.has_root(root),
        rel.len() > 0,
        fits_around(forest.tree(root).unwrap().node, disk, rel),
        forest.tree(root).unwrap().node.find(rel) is None,
        disk.find(rel) matches Some(now) && mirrors(now.kind),
    ensures
        ({
            let polled = poll_one(forest, root, disk, outbox, fresh);
            let is_dir = disk.find(rel).unwrap().kind == Ok::<FileKind, IoFailure>(
                FileKind::Directory,
            );
            &&& polled.outbox == outbox.send(root + rel, WatchEventKind::Create)
            &&& polled.error is None
            &&& polled.forest.wf()
            &&& polled.forest.has_root(root)
            &&& forall|other: Seq<Seq<u8>>|
                other != root ==> #[trigger] polled.forest.tree(other) == forest.tree(other)
            &&& forall|q: Seq<Seq<u8>>| #[trigger]
                polled.forest.tree(root).unwrap().node.entry(q) == entry_after_creation(
                    disk,
                    rel,
                    is_dir,
                    fresh,
                    q,
                )
        }),
{
    forest.lemma_position(root, 0);
    let tree = forest.tree(root).unwrap();
    let model = PollModel { disk, root_len: root.len(), outbox };
    assert(root.skip(root.len() as int) =~= Seq::<Seq<u8>>::empty());
    lemma_single_creation(tree.node, root, model, disk, rel, fresh);
    let w = walk_tree::<ModTimeInfo, PollVisitor>(tree, model, fresh);
    let walked = TreeView { node: w.node, ..tree };
    assert forall|other: Seq<Seq<u8>>| true implies #[trigger] forest.put_tree(walked).tree(other)
        == if other == root {
        Some(walked)
    } else {
        forest.tree(other)
    } by {
        forest.lemma_put_tree(walked, other);
    }
    forest.lemma_put_tree(walked, root);
}

/// Where the root of a tree is gone, or has become something that is no
/// directory, the poll of the tree sends a `Delete` for the root and no
/// other event, and drops the tree.
pub proof fn lemma_poll_drops_lost_root(
    forest: ForestView<ModTimeInfo>,
    root: Seq<Seq<u8>>,
    disk: DiskNode,
    outbox: Outbox,
    fresh: ModTimeInfo,
)
    requires
        forest.wf(),
        forest.has_root(root),
        Change::Deleted.shows(forest.tree(root).unwrap().node, Some(disk)),
    ensures
        poll_one(forest, root, disk, outbox, fresh).outbox == outbox.send(
            root,
            WatchEventKind::Delete,
        ),
        poll_one(forest, root, disk, outbox, fresh).error is None,
        poll_one(forest, root, disk, outbox, fresh).forest == forest.drop_tree(root),
        !poll_one(forest, root, disk, outbox, fresh).forest.has_root(root),
{
    forest.lemma_position(root, 0);
    let tree = forest.tree(root).unwrap();
    let model = PollModel { disk, root_len: root.len(), outbox };
    let none = Seq::<Seq<u8>>::empty();
    assert(root.skip(root.len() as int) =~= none);
    assert(root + none =~= root);
    assert(disk.find(none) == Some(disk));
    lemma_single_change(tree.node, root, model, Some(disk), none, Change::Deleted, fresh);
    forest.lemma_drop_tree(root, root);
}

} // verus!
