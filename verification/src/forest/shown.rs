//! The paths that a walk shows to its visitor: where the visitor goes on
//! at every node, they are the paths of all nodes, each once, parents
//! before children.

use crate::error::TuxDriveError;
use crate::forest::model::{ForestView, NodeView, TreeView};
use crate::forest::walk::{
    name_or_empty, sweep, sweep_trees, walk, walk_tree, Directive, ForestWalk, Step, Sweep, Walk,
};
use crate::forest::{DfsFuncBehaviour, DfsMutInfo, DfsVisitor, RecursiveBehaviour};
use crate::path::{extends, AbsPath};
use vstd::prelude::*;

verus! {

/// The paths of the nodes of the subtree `node`, whose root has the path
/// `path`: the root first, then the subtrees of its children, one after the
/// other.
pub open spec fn preorder<T>(node: NodeView<T>, path: Seq<Seq<u8>>) -> Seq<Seq<Seq<u8>>>
    decreases node, 0nat,
{
    seq![path] + preorder_from(node.children, 0, path)
}

/// The paths of the nodes of the subtrees of `children` from the index
/// `from` on, where the node that owns them has the path `path`.
pub open spec fn preorder_from<T>(children: Seq<NodeView<T>>, from: int, path: Seq<Seq<u8>>) -> Seq<
    Seq<Seq<u8>>,
>
    decreases children, children.len() - from,
{
    if from < 0 || from >= children.len() {
        Seq::empty()
    } else {
        preorder(children[from], path.push(name_or_empty(children[from].name))) + preorder_from(
            children,
            from + 1,
            path,
        )
    }
}

/// A visitor that notes the path of every node it is shown, and goes on.
#[derive(Debug)]
pub struct PathCollector {
    paths: Vec<AbsPath>,
}

impl View for PathCollector {
    type V = Seq<Seq<Seq<u8>>>;

    closed spec fn view(&self) -> Seq<Seq<Seq<u8>>> {
        crate::forest::paths_view(self.paths@)
    }
}

impl PathCollector {
    /// The collector that has seen no path yet.
    pub fn new() -> (collector: Self)
        ensures
            collector@ == Seq::<Seq<Seq<u8>>>::empty(),
    {
        let collector = Self { paths: Vec::new() };
        assert(collector@ =~= Seq::<Seq<Seq<u8>>>::empty());
        collector
    }

    /// The paths that were shown, in the order in which they were shown.
    pub fn finish(self) -> (paths: Vec<AbsPath>)
        ensures
            crate::forest::paths_view(paths@) == self@,
    {
        self.paths
    }
}

impl<T> DfsVisitor<T> for PathCollector {
    open spec fn step(
        model: Seq<Seq<Seq<u8>>>,
        path: Seq<Seq<u8>>,
        children: Seq<Seq<Seq<u8>>>,
        info: T,
        is_dir: bool,
    ) -> Step<Seq<Seq<Seq<u8>>>, T> {
        Step { model: model.push(path), info, outcome: Ok(Directive::Continue) }
    }

    fn visit(&mut self, path: &AbsPath, node: DfsMutInfo<'_, T>) -> (r: Result<
        DfsFuncBehaviour,
        TuxDriveError,
    >) {
        self.paths.push(path.clone());
        assert(self@ =~= old(self)@.push(path@));
        Ok(DfsFuncBehaviour::Continue)
    }
}

/// A walk by a collector changes nothing in the subtree, and shows the
/// collector the paths of all nodes of the subtree, each once, parents
/// before children.
pub proof fn lemma_collector_walk<T>(
    node: NodeView<T>,
    path: Seq<Seq<u8>>,
    seen: Seq<Seq<Seq<u8>>>,
    fresh: T,
)
    ensures
        walk::<T, PathCollector>(node, path, seen, fresh) == (Walk {
            node,
            model: seen + preorder(node, path),
            result: Ok(RecursiveBehaviour::Nothing),
        }),
    decreases node, 0nat,
{
    lemma_collector_sweep(node.children, 0, path, seen.push(path), fresh);
    assert(node.children.subrange(0, node.children.len() as int) =~= node.children);
    assert(seen.push(path) + preorder_from(node.children, 0, path) =~= seen + preorder(node, path));
    let w = walk::<T, PathCollector>(node, path, seen, fresh);
    assert(w.node.children == node.children);
    assert(w.node == node);
}

/// A walk of children by a collector changes nothing in their subtrees,
/// and shows the collector the paths of all their nodes.
pub proof fn lemma_collector_sweep<T>(
    children: Seq<NodeView<T>>,
    from: int,
    path: Seq<Seq<u8>>,
    seen: Seq<Seq<Seq<u8>>>,
    fresh: T,
)
    requires
        0 <= from <= children.len(),
    ensures
        sweep::<T, PathCollector>(children, from, path, seen, fresh) == (Sweep {
            children: children.subrange(from, children.len() as int),
            model: seen + preorder_from(children, from, path),
            error: None,
        }),
    decreases children, children.len() - from,
{
    if from < children.len() {
        let at = path.push(name_or_empty(children[from].name));
        lemma_collector_walk(children[from], at, seen, fresh);
        let after = seen + preorder(children[from], at);
        lemma_collector_sweep(children, from + 1, path, after, fresh);
        assert(seq![children[from]] + children.subrange(from + 1, children.len() as int)
            =~= children.subrange(from, children.len() as int));
        assert(after + preorder_from(children, from + 1, path) =~= seen + preorder_from(
            children,
            from,
            path,
        ));
    } else {
        assert(children.subrange(from, children.len() as int) =~= Seq::empty());
        assert(seen + preorder_from(children, from, path) =~= seen);
    }
}

/// Every path among the paths of a subtree is the path of a node that the
/// subtree holds.
pub proof fn lemma_preorder_is_held<T>(node: NodeView<T>, path: Seq<Seq<u8>>, k: int)
    requires
        node.wf(),
        0 <= k < preorder(node, path).len(),
    ensures
        exists|rel: Seq<Seq<u8>>| node.contains(rel) && #[trigger] (path + rel) == preorder(
            node,
            path,
        )[k],
    decreases node, 0nat,
{
    if k == 0 {
        let rel = Seq::<Seq<u8>>::empty();
        assert(path + rel =~= path);
        assert(node.contains(rel));
    } else {
        lemma_preorder_from_is_held(node, 0, path, k - 1);
    }
}

/// Every path among the paths of the subtrees of the children of a node,
/// from the index `from` on, is the path of a node that the node holds.
pub proof fn lemma_preorder_from_is_held<T>(
    node: NodeView<T>,
    from: int,
    path: Seq<Seq<u8>>,
    k: int,
)
    requires
        node.wf(),
        0 <= from,
        0 <= k < preorder_from(node.children, from, path).len(),
    ensures
        exists|rel: Seq<Seq<u8>>| node.contains(rel) && #[trigger] (path + rel) == preorder_from(
            node.children,
            from,
            path,
        )[k],
    decreases node.children, node.children.len() - from,
{
    let child = node.children[from];
    let name = child.name.unwrap();
    let first = preorder(child, path.push(name));
    if k < first.len() {
        lemma_preorder_is_held(child, path.push(name), k);
        let below = choose|rel: Seq<Seq<u8>>|
            child.contains(rel) && #[trigger] (path.push(name) + rel) == first[k];
        let rel = seq![name] + below;
        node.lemma_child_entry(from, below);
        assert(path + rel =~= path.push(name) + below);
        assert(node.contains(rel));
    } else {
        lemma_preorder_from_is_held(node, from + 1, path, k - first.len());
    }
}

/// The path of every node that a subtree holds is among the paths of the
/// subtree.
pub proof fn lemma_held_is_in_preorder<T>(node: NodeView<T>, path: Seq<Seq<u8>>, rel: Seq<Seq<u8>>)
    requires
        node.contains(rel),
    ensures
        preorder(node, path).contains(path + rel),
    decreases rel.len(),
{
    let all = preorder(node, path);
    if rel.len() == 0 {
        assert(path + rel =~= path);
        assert(all[0] == path);
    } else {
        NodeView::lemma_position(node.children, rel[0], 0);
        let at = NodeView::position(node.children, rel[0], 0).unwrap();
        let child = node.children[at];
        let below = path.push(rel[0]);
        lemma_held_is_in_preorder(child, below, rel.drop_first());
        assert(below + rel.drop_first() =~= path + rel);
        lemma_preorder_from_holds(node.children, 0, at, path, path + rel);
        let k = choose|k: int|
            0 <= k < preorder_from(node.children, 0, path).len() && preorder_from(
                node.children,
                0,
                path,
            )[k] == path + rel;
        assert(all[k + 1] == path + rel);
    }
}

/// What is among the paths of the subtree of one child is among the paths
/// of the subtrees of the children.
proof fn lemma_preorder_from_holds<T>(
    children: Seq<NodeView<T>>,
    from: int,
    at: int,
    path: Seq<Seq<u8>>,
    q: Seq<Seq<u8>>,
)
    requires
        0 <= from <= at < children.len(),
        preorder(children[at], path.push(name_or_empty(children[at].name))).contains(q),
    ensures
        preorder_from(children, from, path).contains(q),
    decreases at - from,
{
    let first = preorder(children[from], path.push(name_or_empty(children[from].name)));
    let rest = preorder_from(children, from + 1, path);
    let all = preorder_from(children, from, path);
    if from == at {
        let k = choose|k: int| 0 <= k < first.len() && first[k] == q;
        assert(all[k] == q);
    } else {
        lemma_preorder_from_holds(children, from + 1, at, path, q);
        let k = choose|k: int| 0 <= k < rest.len() && rest[k] == q;
        assert(all[first.len() + k] == q);
    }
}

/// No path stands twice among the paths of a subtree.
pub proof fn lemma_preorder_once<T>(node: NodeView<T>, path: Seq<Seq<u8>>, a: int, b: int)
    requires
        node.wf(),
        0 <= a < b < preorder(node, path).len(),
    ensures
        preorder(node, path)[a] != preorder(node, path)[b],
    decreases node, 0nat,
{
    let rest = preorder_from(node.children, 0, path);
    if a == 0 {
        lemma_preorder_from_below(node.children, 0, path, b - 1);
    } else {
        lemma_preorder_from_once(node.children, 0, path, a - 1, b - 1);
    }
}

/// Every path among the paths of a subtree starts with the path of the
/// subtree's root.
pub proof fn lemma_preorder_extends<T>(node: NodeView<T>, path: Seq<Seq<u8>>, k: int)
    requires
        0 <= k < preorder(node, path).len(),
    ensures
        extends(preorder(node, path)[k], path),
    decreases node, 0nat,
{
    if k == 0 {
        assert(path.subrange(0, path.len() as int) =~= path);
    } else {
        lemma_preorder_from_below(node.children, 0, path, k - 1);
    }
}

/// Every path among the paths of the subtrees of children is longer than
/// the path of the node that owns them, starts with it, and goes on with
/// the name of one of the children from `from` on.
pub proof fn lemma_preorder_from_below<T>(
    children: Seq<NodeView<T>>,
    from: int,
    path: Seq<Seq<u8>>,
    k: int,
)
    requires
        0 <= from,
        0 <= k < preorder_from(children, from, path).len(),
    ensures
        preorder_from(children, from, path)[k].len() > path.len(),
        extends(preorder_from(children, from, path)[k], path),
        exists|i: int|
            from <= i < children.len() && name_or_empty((#[trigger] children[i]).name)
                == preorder_from(children, from, path)[k][path.len() as int],
    decreases children, children.len() - from,
{
    let at = path.push(name_or_empty(children[from].name));
    let first = preorder(children[from], at);
    if k < first.len() {
        lemma_preorder_extends(children[from], at, k);
        let q = first[k];
        assert(q.subrange(0, path.len() as int) =~= q.subrange(0, at.len() as int).subrange(
            0,
            path.len() as int,
        ));
        assert(at.subrange(0, path.len() as int) =~= path);
        assert(q[path.len() as int] == q.subrange(0, at.len() as int)[path.len() as int]);
        assert(name_or_empty(children[from].name) == q[path.len() as int]);
    } else {
        lemma_preorder_from_below(children, from + 1, path, k - first.len());
        let i = choose|i: int|
            from + 1 <= i < children.len() && name_or_empty((#[trigger] children[i]).name)
                == preorder_from(children, from + 1, path)[k - first.len()][path.len() as int];
        assert(from <= i < children.len());
    }
}

/// No path stands twice among the paths of the subtrees of the children
/// of a well-formed node.
pub proof fn lemma_preorder_from_once<T>(
    children: Seq<NodeView<T>>,
    from: int,
    path: Seq<Seq<u8>>,
    a: int,
    b: int,
)
    requires
        0 <= from,
        forall|i: int| 0 <= i < children.len() ==> (#[trigger] children[i]).name is Some && children[i].wf(),
        forall|i: int, j: int|
            0 <= i < j < children.len() ==> (#[trigger] children[i]).name != (
            #[trigger] children[j]).name,
        0 <= a < b < preorder_from(children, from, path).len(),
    ensures
        preorder_from(children, from, path)[a] != preorder_from(children, from, path)[b],
    decreases children, children.len() - from,
{
    let at = path.push(name_or_empty(children[from].name));
    let first = preorder(children[from], at);
    if b < first.len() {
        lemma_preorder_once(children[from], at, a, b);
    } else if a >= first.len() {
        lemma_preorder_from_once(children, from + 1, path, a - first.len(), b - first.len());
    } else {
        lemma_preorder_extends(children[from], at, a);
        let q = first[a];
        assert(q[path.len() as int] == q.subrange(0, at.len() as int)[path.len() as int]);
        lemma_preorder_from_below(children, from + 1, path, b - first.len());
        let i = choose|i: int|
            from + 1 <= i < children.len() && name_or_empty((#[trigger] children[i]).name)
                == preorder_from(children, from + 1, path)[b - first.len()][path.len() as int];
        assert(children[from].name != children[i].name);
    }
}

/// The walk of a tree by a collector changes nothing in the tree. The
/// paths that it shows are exactly the paths of the nodes that the tree
/// holds: each is the path under which the tree holds a node, the path of
/// every node is among them, and none stands twice.
pub proof fn lemma_walk_shows_the_held_paths<T>(tree: TreeView<T>, fresh: T)
    requires
        tree.wf(),
    ensures
        walk_tree::<T, PathCollector>(tree, Seq::empty(), fresh) == (Walk {
            node: tree.node,
            model: preorder(tree.node, tree.root),
            result: Ok(RecursiveBehaviour::Nothing),
        }),
        forall|k: int|
            0 <= k < preorder(tree.node, tree.root).len() ==> tree.contains(
                #[trigger] preorder(tree.node, tree.root)[k],
            ),
        forall|q: Seq<Seq<u8>>|
            tree.contains(q) ==> #[trigger] preorder(tree.node, tree.root).contains(q),
        forall|a: int, b: int|
            0 <= a < b < preorder(tree.node, tree.root).len() ==> #[trigger] preorder(
                tree.node,
                tree.root,
            )[a] != #[trigger] preorder(tree.node, tree.root)[b],
{
    let all = preorder(tree.node, tree.root);
    let n = tree.root.len() as int;
    lemma_collector_walk(tree.node, tree.root, Seq::empty(), fresh);
    assert(Seq::<Seq<Seq<u8>>>::empty() + all =~= all);
    assert forall|k: int| 0 <= k < all.len() implies tree.contains(#[trigger] all[k]) by {
        lemma_preorder_is_held(tree.node, tree.root, k);
        let rel = choose|rel: Seq<Seq<u8>>|
            tree.node.contains(rel) && #[trigger] (tree.root + rel) == all[k];
        let q = tree.root + rel;
        assert(q.subrange(0, n) =~= tree.root);
        assert(q.skip(n) =~= rel);
    }
    assert forall|q: Seq<Seq<u8>>| tree.contains(q) implies #[trigger] all.contains(q) by {
        lemma_held_is_in_preorder(tree.node, tree.root, q.skip(n));
        assert(tree.root + q.skip(n) =~= q) by {
            assert(q.subrange(0, n) == tree.root);
        }
    }
    assert forall|a: int, b: int| 0 <= a < b < all.len() implies #[trigger] all[a]
        != #[trigger] all[b] by {
        lemma_preorder_once(tree.node, tree.root, a, b);
    }
}

/// The paths of the nodes of the trees `trees` from the index `from` on,
/// one tree after the other.
pub open spec fn forest_preorder<T>(trees: Seq<TreeView<T>>, from: int) -> Seq<Seq<Seq<u8>>>
    decreases trees.len() - from,
{
    if from < 0 || from >= trees.len() {
        Seq::empty()
    } else {
        preorder(trees[from].node, trees[from].root) + forest_preorder(trees, from + 1)
    }
}

/// The walk of the trees of a forest by a collector ends without an
/// error, changes nothing in the forest, and shows the collector the
/// paths of all nodes of each tree, one tree after the other.
pub proof fn lemma_collector_sweep_trees<T>(
    trees: Seq<TreeView<T>>,
    from: int,
    seen: Seq<Seq<Seq<u8>>>,
    fresh: T,
)
    requires
        0 <= from <= trees.len(),
    ensures
        sweep_trees::<T, PathCollector>(trees, from, seen, fresh) == (ForestWalk {
            forest: ForestView { trees: trees.subrange(from, trees.len() as int) },
            model: seen + forest_preorder(trees, from),
            error: None,
        }),
    decreases trees.len() - from,
{
    if from < trees.len() {
        let tree = trees[from];
        lemma_collector_walk(tree.node, tree.root, seen, fresh);
        let after = seen + preorder(tree.node, tree.root);
        lemma_collector_sweep_trees(trees, from + 1, after, fresh);
        assert(TreeView { node: tree.node, ..tree } == tree);
        assert(seq![tree] + trees.subrange(from + 1, trees.len() as int) =~= trees.subrange(
            from,
            trees.len() as int,
        ));
        assert(after + forest_preorder(trees, from + 1) =~= seen + forest_preorder(trees, from));
    } else {
        assert(trees.subrange(from, trees.len() as int) =~= Seq::empty());
        assert(seen + forest_preorder(trees, from) =~= seen);
    }
}

/// A path that is added to a tree, with what its node is to hold.
pub struct Added<T> {
    pub path: Seq<Seq<u8>>,
    pub info: T,
    pub is_dir: bool,
}

/// The tree with the root `root` that is made by adding `adds`, in their
/// order, to the tree that holds the root alone.
pub open spec fn grown<T>(root: Seq<Seq<u8>>, adds: Seq<Added<T>>, fresh: T) -> TreeView<T>
    decreases adds.len(),
{
    if adds.len() == 0 {
        TreeView::single(root, fresh)
    } else {
        grown(root, adds.drop_last(), fresh).with_path(
            adds.last().path,
            adds.last().info,
            adds.last().is_dir,
            fresh,
        )
    }
}

/// Whether `q` is the root, one of the paths that were added, or a path
/// between the root and one of them.
pub open spec fn on_the_way<T>(root: Seq<Seq<u8>>, adds: Seq<Added<T>>, q: Seq<Seq<u8>>) -> bool {
    q == root || (extends(q, root) && exists|i: int|
        0 <= i < adds.len() && extends((#[trigger] adds[i]).path, q))
}

/// A tree that is made by adding paths below its root holds the root, the
/// paths that were added and the paths between the root and them, and no
/// other path.
pub proof fn lemma_grown_holds<T>(
    root: Seq<Seq<u8>>,
    adds: Seq<Added<T>>,
    fresh: T,
    q: Seq<Seq<u8>>,
)
    requires
        forall|i: int| 0 <= i < adds.len() ==> extends((#[trigger] adds[i]).path, root),
    ensures
        grown(root, adds, fresh).wf(),
        grown(root, adds, fresh).root == root,
        grown(root, adds, fresh).contains(q) == on_the_way(root, adds, q),
    decreases adds.len(),
{
    if adds.len() == 0 {
        NodeView::lemma_leaf_find(
            TreeView::<T>::root_name(root),
            fresh,
            true,
            q.skip(root.len() as int),
        );
        if q == root {
            assert(root.subrange(0, root.len() as int) =~= root);
        } else if extends(q, root) {
            if q.skip(root.len() as int).len() == 0 {
                assert(q.subrange(0, root.len() as int) =~= q);
            }
        }
    } else {
        let before = adds.drop_last();
        let last = adds.last();
        assert forall|i: int| 0 <= i < before.len() implies extends(
            (#[trigger] before[i]).path,
            root,
        ) by {
            assert(before[i] == adds[i]);
        }
        lemma_grown_holds(root, before, fresh, q);
        let tree = grown(root, before, fresh);
        tree.lemma_with_path(last.path, last.info, last.is_dir, fresh, q);
        assert(last.path.subrange(0, last.path.len() as int) =~= last.path);
        if on_the_way(root, before, q) && q != root {
            let i = choose|i: int| 0 <= i < before.len() && extends((#[trigger] before[i]).path, q);
            assert(before[i] == adds[i]);
        }
        if on_the_way(root, adds, q) && q != root {
            let i = choose|i: int| 0 <= i < adds.len() && extends((#[trigger] adds[i]).path, q);
            if i < before.len() {
                assert(before[i] == adds[i]);
            }
        }
        if q == root {
            assert(root.subrange(0, root.len() as int) =~= root);
        }
    }
}

/// The forest after `adds` were added, in their order, to the tree with
/// the root `root`.
pub open spec fn built<T>(
    forest: ForestView<T>,
    root: Seq<Seq<u8>>,
    adds: Seq<Added<T>>,
    fresh: T,
) -> ForestView<T>
    decreases adds.len(),
{
    if adds.len() == 0 {
        forest
    } else {
        built(forest, root, adds.drop_last(), fresh).with_path(
            root,
            adds.last().path,
            adds.last().info,
            adds.last().is_dir,
            fresh,
        )
    }
}

/// Adding paths to a forest that has no tree with the root `root` makes
/// the tree that adding them to the root alone makes, and leaves the
/// other trees as they are.
pub proof fn lemma_built_tree<T>(
    forest: ForestView<T>,
    root: Seq<Seq<u8>>,
    adds: Seq<Added<T>>,
    fresh: T,
)
    requires
        forest.wf(),
        !forest.has_root(root),
        forall|i: int| 0 <= i < adds.len() ==> extends((#[trigger] adds[i]).path, root),
    ensures
        built(forest, root, adds, fresh).wf(),
        built(forest, root, adds, fresh).tree(root) == if adds.len() == 0 {
            None
        } else {
            Some(grown(root, adds, fresh))
        },
        forall|other: Seq<Seq<u8>>|
            other != root ==> #[trigger] built(forest, root, adds, fresh).tree(other)
                == forest.tree(other),
    decreases adds.len(),
{
    if adds.len() > 0 {
        let before = adds.drop_last();
        let last = adds.last();
        assert forall|i: int| 0 <= i < before.len() implies extends(
            (#[trigger] before[i]).path,
            root,
        ) by {
            assert(before[i] == adds[i]);
        }
        lemma_built_tree(forest, root, before, fresh);
        lemma_grown_holds(root, before, fresh, root);
        let so_far = built(forest, root, before, fresh);
        let base = so_far.tree_or_single(root, fresh);
        assert(base == grown(root, before, fresh));
        base.lemma_with_path(last.path, last.info, last.is_dir, fresh, root);
        let grown_tree = base.with_path(last.path, last.info, last.is_dir, fresh);
        assert forall|other: Seq<Seq<u8>>| true implies #[trigger] so_far.put_tree(grown_tree).tree(
            other,
        ) == if other == root {
            Some(grown_tree)
        } else {
            so_far.tree(other)
        } by {
            so_far.lemma_put_tree(grown_tree, other);
        }
        so_far.lemma_put_tree(grown_tree, root);
    }
}

/// A walk that goes on at every node of a tree that was made by adding
/// paths is shown the root, the paths that were added and the paths
/// between the root and them: each of them once, under the path under
/// which it was added, and no other path. The walk changes nothing in the
/// tree and ends without an error.
pub proof fn lemma_walk_shows_the_added_paths<T>(
    root: Seq<Seq<u8>>,
    adds: Seq<Added<T>>,
    fresh: T,
)
    requires
        forall|i: int| 0 <= i < adds.len() ==> extends((#[trigger] adds[i]).path, root),
    ensures
        ({
            let tree = grown(root, adds, fresh);
            let shown = preorder(tree.node, root);
            &&& walk_tree::<T, PathCollector>(tree, Seq::empty(), fresh) == (Walk {
                node: tree.node,
                model: shown,
                result: Ok(RecursiveBehaviour::Nothing),
            })
            &&& forall|q: Seq<Seq<u8>>| #[trigger] shown.contains(q) == on_the_way(root, adds, q)
            &&& forall|a: int, b: int|
                0 <= a < b < shown.len() ==> #[trigger] shown[a] != #[trigger] shown[b]
        }),
{
    let tree = grown(root, adds, fresh);
    let shown = preorder(tree.node, root);
    lemma_grown_holds(root, adds, fresh, root);
    lemma_walk_shows_the_held_paths(tree, fresh);
    assert forall|q: Seq<Seq<u8>>| #[trigger] shown.contains(q) == on_the_way(root, adds, q) by {
        lemma_grown_holds(root, adds, fresh, q);
        if shown.contains(q) {
            let k = choose|k: int| 0 <= k < shown.len() && shown[k] == q;
            assert(tree.contains(shown[k]));
        }
    }
}

} // verus!
