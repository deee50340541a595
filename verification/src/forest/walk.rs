//! The directed depth-first walk, as a function on the model of a tree.

use crate::error::ErrorView;
use crate::forest::model::{ForestView, NodeView, TreeView};
use crate::forest::{DfsVisitor, RecursiveBehaviour};
use vstd::prelude::*;

verus! {

/// A path that a visitor wants added below the node it was shown.
pub struct NewEntry {
    pub path: Seq<Seq<u8>>,
    pub is_dir: bool,
}

/// What a visitor says of the node it was shown.
pub enum Directive {
    Continue,
    Stop,
    Delete,
    AddAndContinue(Seq<NewEntry>),
    AddAndStop(Seq<NewEntry>),
}

/// One visit: the visitor afterwards, the payload it left in the node, and
/// its directive or error.
pub struct Step<M, T> {
    pub model: M,
    pub info: T,
    pub outcome: Result<Directive, ErrorView>,
}

/// A walk of one subtree: the subtree and the visitor afterwards, and what
/// is to become of the subtree's root.
pub struct Walk<M, T> {
    pub node: NodeView<T>,
    pub model: M,
    pub result: Result<RecursiveBehaviour, ErrorView>,
}

/// A walk of the children of one node: the children that are left, the
/// visitor afterwards, and the error that ended the walk early, if any.
pub struct Sweep<M, T> {
    pub children: Seq<NodeView<T>>,
    pub model: M,
    pub error: Option<ErrorView>,
}

/// The name of a node, empty for the node that has none.
pub open spec fn name_or_empty(name: Option<Seq<u8>>) -> Seq<u8> {
    match name {
        Some(n) => n,
        None => Seq::empty(),
    }
}

/// The paths of the children of `node`, which itself has the path `path`.
pub open spec fn child_paths<T>(node: NodeView<T>, path: Seq<Seq<u8>>) -> Seq<Seq<Seq<u8>>> {
    Seq::new(node.children.len(), |i: int| path.push(name_or_empty(node.children[i].name)))
}

impl<T> NodeView<T> {
    /// This node with a new child for `entry`: a node without children whose
    /// name is the last component of the entry's path and whose payload is
    /// `fresh`. It takes the place of a child of the same name. An entry
    /// whose path has no component adds nothing.
    pub open spec fn put_new(self, entry: NewEntry, fresh: T) -> Self {
        if entry.path.len() == 0 {
            self
        } else {
            self.put_child(Self::leaf(Some(entry.path.last()), fresh, entry.is_dir))
        }
    }

    /// This node with new children for all of `new`, in their order.
    pub open spec fn with_new(self, new: Seq<NewEntry>, fresh: T) -> Self
        decreases new.len(),
    {
        if new.len() == 0 {
            self
        } else {
            self.with_new(new.drop_last(), fresh).put_new(new.last(), fresh)
        }
    }

    /// Each new child is held by the node afterwards, with the payload
    /// `fresh`.
    pub proof fn lemma_new_child_is_held(self, new: Seq<NewEntry>, fresh: T, k: int)
        requires
            self.wf(),
            0 <= k < new.len(),
            new[k].path.len() > 0,
        ensures
            self.with_new(new, fresh).entry(seq![new[k].path.last()]) matches Some(e) && e.info
                == fresh,
        decreases new.len(),
    {
        let before = self.with_new(new.drop_last(), fresh);
        let name = new[k].path.last();
        let last = new.last();
        let q = seq![name];
        assert(q[0] == name);
        assert(q.drop_first() =~= Seq::<Seq<u8>>::empty());
        self.lemma_with_new(new.drop_last(), fresh);
        if k < new.len() - 1 {
            assert(new.drop_last()[k] == new[k]);
            self.lemma_new_child_is_held(new.drop_last(), fresh, k);
        }
        if last.path.len() > 0 {
            let child = Self::leaf(Some(last.path.last()), fresh, last.is_dir);
            before.lemma_put_child(child, q);
        }
    }

    /// New children leave the node well formed and its own fields as they are.
    pub proof fn lemma_with_new(self, new: Seq<NewEntry>, fresh: T)
        requires
            self.wf(),
        ensures
            self.with_new(new, fresh).wf(),
            self.with_new(new, fresh).name == self.name,
            self.with_new(new, fresh).info == self.info,
            self.with_new(new, fresh).is_dir == self.is_dir,
        decreases new.len(),
    {
        if new.len() > 0 {
            let before = self.with_new(new.drop_last(), fresh);
            self.lemma_with_new(new.drop_last(), fresh);
            if new.last().path.len() > 0 {
                let child = Self::leaf(Some(new.last().path.last()), fresh, new.last().is_dir);
                before.lemma_put_child(child, Seq::empty());
            }
        }
    }
}

/// The walk of the subtree `node`, whose root has the path `path`, by a
/// visitor that starts as `model`.
///
/// The visitor sees the root first. On `Stop` and `Delete` the walk goes no
/// further; on `Continue` it goes through the children in their order, and
/// drops each child whose own walk ends in `Delete`; on the two `Add`
/// directives the new children, with the payload `fresh`, are put in after
/// that, and are not visited. The first error ends the walk.
pub open spec fn walk<T, V: DfsVisitor<T>>(
    node: NodeView<T>,
    path: Seq<Seq<u8>>,
    model: V::V,
    fresh: T,
) -> Walk<V::V, T>
    decreases node, 0nat,
{
    let step = V::step(model, path, child_paths(node, path), node.info, node.is_dir);
    let seen = NodeView { info: step.info, ..node };
    match step.outcome {
        Err(e) => Walk { node: seen, model: step.model, result: Err(e) },
        Ok(Directive::Stop) => Walk {
            node: seen,
            model: step.model,
            result: Ok(RecursiveBehaviour::Nothing),
        },
        Ok(Directive::Delete) => Walk {
            node: seen,
            model: step.model,
            result: Ok(RecursiveBehaviour::Delete),
        },
        Ok(Directive::AddAndStop(new)) => Walk {
            node: seen.with_new(new, fresh),
            model: step.model,
            result: Ok(RecursiveBehaviour::Nothing),
        },
        Ok(directive) => {
            let below = sweep::<T, V>(node.children, 0, path, step.model, fresh);
            let swept = NodeView { children: below.children, ..seen };
            match below.error {
                Some(e) => Walk { node: swept, model: below.model, result: Err(e) },
                None => Walk {
                    node: swept.with_new(new_entries(directive), fresh),
                    model: below.model,
                    result: Ok(RecursiveBehaviour::Nothing),
                },
            }
        },
    }
}

/// The entries that a directive wants added.
pub open spec fn new_entries(directive: Directive) -> Seq<NewEntry> {
    match directive {
        Directive::AddAndContinue(new) => new,
        Directive::AddAndStop(new) => new,
        _ => Seq::empty(),
    }
}

/// The walk of `children` from the index `from` on, where the node that owns
/// them has the path `path`.
pub open spec fn sweep<T, V: DfsVisitor<T>>(
    children: Seq<NodeView<T>>,
    from: int,
    path: Seq<Seq<u8>>,
    model: V::V,
    fresh: T,
) -> Sweep<V::V, T>
    decreases children, children.len() - from,
{
    if from < 0 || from >= children.len() {
        Sweep { children: Seq::empty(), model, error: None }
    } else {
        let w = walk::<T, V>(
            children[from],
            path.push(name_or_empty(children[from].name)),
            model,
            fresh,
        );
        match w.result {
            Err(e) => Sweep {
                children: seq![w.node] + children.subrange(from + 1, children.len() as int),
                model: w.model,
                error: Some(e),
            },
            Ok(RecursiveBehaviour::Delete) => sweep::<T, V>(children, from + 1, path, w.model, fresh),
            Ok(RecursiveBehaviour::Nothing) => {
                let rest = sweep::<T, V>(children, from + 1, path, w.model, fresh);
                Sweep { children: seq![w.node] + rest.children, ..rest }
            },
        }
    }
}

/// A walk of children behind children that were dealt with before.
pub open spec fn behind<M, T>(done: Seq<NodeView<T>>, rest: Sweep<M, T>) -> Sweep<M, T> {
    Sweep { children: done + rest.children, ..rest }
}

/// A walk of the trees of a forest: the trees that are left, the visitor
/// afterwards, and the error that ended the walk early, if any.
pub struct ForestWalk<M, T> {
    pub forest: ForestView<T>,
    pub model: M,
    pub error: Option<ErrorView>,
}

/// The walk of one tree, which starts at the tree's root.
pub open spec fn walk_tree<T, V: DfsVisitor<T>>(tree: TreeView<T>, model: V::V, fresh: T) -> Walk<
    V::V,
    T,
> {
    walk::<T, V>(tree.node, tree.root, model, fresh)
}

/// The walk of `trees` from the index `from` on, one tree after the other.
/// A tree whose walk ends in `Delete` is dropped; the first error ends the
/// walk.
pub open spec fn sweep_trees<T, V: DfsVisitor<T>>(
    trees: Seq<TreeView<T>>,
    from: int,
    model: V::V,
    fresh: T,
) -> ForestWalk<V::V, T>
    decreases trees.len() - from,
{
    if from < 0 || from >= trees.len() {
        ForestWalk { forest: ForestView { trees: Seq::empty() }, model, error: None }
    } else {
        let w = walk_tree::<T, V>(trees[from], model, fresh);
        let walked = TreeView { node: w.node, ..trees[from] };
        match w.result {
            Err(e) => ForestWalk {
                forest: ForestView {
                    trees: seq![walked] + trees.subrange(from + 1, trees.len() as int),
                },
                model: w.model,
                error: Some(e),
            },
            Ok(RecursiveBehaviour::Delete) => sweep_trees::<T, V>(trees, from + 1, w.model, fresh),
            Ok(RecursiveBehaviour::Nothing) => {
                let rest = sweep_trees::<T, V>(trees, from + 1, w.model, fresh);
                ForestWalk { forest: ForestView { trees: seq![walked] + rest.forest.trees }, ..rest }
            },
        }
    }
}

/// A walk of trees behind trees that were dealt with before.
pub open spec fn behind_trees<M, T>(done: Seq<TreeView<T>>, rest: ForestWalk<M, T>) -> ForestWalk<
    M,
    T,
> {
    ForestWalk { forest: ForestView { trees: done + rest.forest.trees }, ..rest }
}

/// A walk keeps a subtree well formed and leaves its root's name alone.
pub proof fn lemma_walk_wf<T, V: DfsVisitor<T>>(
    node: NodeView<T>,
    path: Seq<Seq<u8>>,
    model: V::V,
    fresh: T,
)
    requires
        node.wf(),
    ensures
        walk::<T, V>(node, path, model, fresh).node.wf(),
        walk::<T, V>(node, path, model, fresh).node.name == node.name,
    decreases node, 0nat,
{
    let step = V::step(model, path, child_paths(node, path), node.info, node.is_dir);
    let seen = NodeView { info: step.info, ..node };
    assert(seen.wf());
    match step.outcome {
        Err(e) => {},
        Ok(Directive::Stop) => {},
        Ok(Directive::Delete) => {},
        Ok(Directive::AddAndStop(new)) => {
            seen.lemma_with_new(new, fresh);
        },
        Ok(directive) => {
            lemma_sweep_wf::<T, V>(node.children, 0, path, step.model, fresh);
            let below = sweep::<T, V>(node.children, 0, path, step.model, fresh);
            let swept = NodeView { children: below.children, ..seen };
            assert(swept.wf());
            swept.lemma_with_new(new_entries(directive), fresh);
        },
    }
}

/// A walk of children leaves well-formed children with names of their own:
/// each child that is left has the name of one of the children that were
/// walked, and no two have the same.
pub proof fn lemma_sweep_wf<T, V: DfsVisitor<T>>(
    children: Seq<NodeView<T>>,
    from: int,
    path: Seq<Seq<u8>>,
    model: V::V,
    fresh: T,
)
    requires
        0 <= from,
        forall|i: int| 0 <= i < children.len() ==> (#[trigger] children[i]).name is Some && children[i].wf(),
        forall|i: int, j: int|
            0 <= i < j < children.len() ==> (#[trigger] children[i]).name != (
            #[trigger] children[j]).name,
    ensures
        ({
            let left = sweep::<T, V>(children, from, path, model, fresh).children;
            &&& forall|i: int| 0 <= i < left.len() ==> (#[trigger] left[i]).name is Some && left[i].wf()
            &&& forall|i: int|
                0 <= i < left.len() ==> exists|j: int|
                    from <= j < children.len() && (#[trigger] children[j]).name == (
                    #[trigger] left[i]).name
            &&& forall|i: int, j: int|
                0 <= i < j < left.len() ==> (#[trigger] left[i]).name != (#[trigger] left[j]).name
        }),
    decreases children, children.len() - from,
{
    if from < children.len() {
        let here = children[from];
        let w = walk::<T, V>(here, path.push(name_or_empty(here.name)), model, fresh);
        lemma_walk_wf::<T, V>(here, path.push(name_or_empty(here.name)), model, fresh);
        let left = sweep::<T, V>(children, from, path, model, fresh).children;
        match w.result {
            Err(e) => {
                let tail = children.subrange(from + 1, children.len() as int);
                assert(left == seq![w.node] + tail);
                assert forall|i: int| 0 <= i < left.len() implies exists|j: int|
                    from <= j < children.len() && (#[trigger] children[j]).name == (
                    #[trigger] left[i]).name by {
                    assert(children[from + i].name == left[i].name);
                }
                assert forall|i: int, j: int| 0 <= i < j < left.len() implies (
                #[trigger] left[i]).name != (#[trigger] left[j]).name by {
                    assert(children[from + i].name == left[i].name);
                    assert(children[from + j].name == left[j].name);
                }
            },
            Ok(RecursiveBehaviour::Delete) => {
                lemma_sweep_wf::<T, V>(children, from + 1, path, w.model, fresh);
            },
            Ok(RecursiveBehaviour::Nothing) => {
                lemma_sweep_wf::<T, V>(children, from + 1, path, w.model, fresh);
                let rest = sweep::<T, V>(children, from + 1, path, w.model, fresh).children;
                assert(left == seq![w.node] + rest);
                assert forall|i: int| 0 <= i < left.len() implies exists|j: int|
                    from <= j < children.len() && (#[trigger] children[j]).name == (
                    #[trigger] left[i]).name by {
                    if i == 0 {
                        assert(children[from].name == left[0].name);
                    } else {
                        assert(left[i] == rest[i - 1]);
                        let j = choose|j: int|
                            from + 1 <= j < children.len() && (#[trigger] children[j]).name
                                == rest[i - 1].name;
                        assert(children[j].name == left[i].name);
                    }
                }
                assert forall|i: int, j: int| 0 <= i < j < left.len() implies (
                #[trigger] left[i]).name != (#[trigger] left[j]).name by {
                    assert(left[j] == rest[j - 1]);
                    if i == 0 {
                        let k = choose|k: int|
                            from + 1 <= k < children.len() && (#[trigger] children[k]).name
                                == rest[j - 1].name;
                        assert(children[from].name != children[k].name);
                    } else {
                        assert(left[i] == rest[i - 1]);
                    }
                }
            },
        }
    }
}

/// A walk of trees leaves well-formed trees with roots of their own: each
/// tree that is left has the root of one of the trees that were walked, and
/// no two have the same.
pub proof fn lemma_sweep_trees_wf<T, V: DfsVisitor<T>>(
    trees: Seq<TreeView<T>>,
    from: int,
    model: V::V,
    fresh: T,
)
    requires
        0 <= from,
        (ForestView { trees }).wf(),
    ensures
        sweep_trees::<T, V>(trees, from, model, fresh).forest.wf(),
        ({
            let left = sweep_trees::<T, V>(trees, from, model, fresh).forest.trees;
            forall|i: int|
                0 <= i < left.len() ==> exists|j: int|
                    from <= j < trees.len() && (#[trigger] trees[j]).root == (
                    #[trigger] left[i]).root
        }),
    decreases trees.len() - from,
{
    if from < trees.len() {
        let here = trees[from];
        let w = walk_tree::<T, V>(here, model, fresh);
        let walked = TreeView { node: w.node, ..here };
        lemma_walk_wf::<T, V>(here.node, here.root, model, fresh);
        assert(walked.wf());
        let left = sweep_trees::<T, V>(trees, from, model, fresh).forest.trees;
        match w.result {
            Err(e) => {
                let tail = trees.subrange(from + 1, trees.len() as int);
                assert(left == seq![walked] + tail);
                assert forall|i: int| 0 <= i < left.len() implies (#[trigger] left[i]).wf()
                    && left[i].root == trees[from + i].root by {}
                assert forall|i: int| 0 <= i < left.len() implies exists|j: int|
                    from <= j < trees.len() && (#[trigger] trees[j]).root == (
                    #[trigger] left[i]).root by {
                    assert(trees[from + i].root == left[i].root);
                }
                assert forall|i: int, j: int| 0 <= i < j < left.len() implies (
                #[trigger] left[i]).root != (#[trigger] left[j]).root by {
                    assert(trees[from + i].root == left[i].root);
                    assert(trees[from + j].root == left[j].root);
                }
            },
            Ok(RecursiveBehaviour::Delete) => {
                lemma_sweep_trees_wf::<T, V>(trees, from + 1, w.model, fresh);
            },
            Ok(RecursiveBehaviour::Nothing) => {
                lemma_sweep_trees_wf::<T, V>(trees, from + 1, w.model, fresh);
                let rest = sweep_trees::<T, V>(trees, from + 1, w.model, fresh).forest.trees;
                assert(left == seq![walked] + rest);
                assert forall|i: int| 0 <= i < left.len() implies (#[trigger] left[i]).wf() by {
                    if i > 0 {
                        assert(left[i] == rest[i - 1]);
                    }
                }
                assert forall|i: int| 0 <= i < left.len() implies exists|j: int|
                    from <= j < trees.len() && (#[trigger] trees[j]).root == (
                    #[trigger] left[i]).root by {
                    if i == 0 {
                        assert(trees[from].root == left[0].root);
                    } else {
                        assert(left[i] == rest[i - 1]);
                        let j = choose|j: int|
                            from + 1 <= j < trees.len() && (#[trigger] trees[j]).root == rest[i
                                - 1].root;
                        assert(trees[j].root == left[i].root);
                    }
                }
                assert forall|i: int, j: int| 0 <= i < j < left.len() implies (
                #[trigger] left[i]).root != (#[trigger] left[j]).root by {
                    assert(left[j] == rest[j - 1]);
                    if i == 0 {
                        let k = choose|k: int|
                            from + 1 <= k < trees.len() && (#[trigger] trees[k]).root == rest[j
                                - 1].root;
                        assert(trees[from].root != trees[k].root);
                    } else {
                        assert(left[i] == rest[i - 1]);
                    }
                }
            },
        }
    }
}

/// The walk of the tree with the root `root` alone. The tree is dropped if
/// its walk ends in `Delete`; a forest without such a tree stays as it is.
pub open spec fn walk_one<T, V: DfsVisitor<T>>(
    forest: ForestView<T>,
    root: Seq<Seq<u8>>,
    model: V::V,
    fresh: T,
) -> ForestWalk<V::V, T> {
    match forest.tree(root) {
        None => ForestWalk { forest, model, error: None },
        Some(tree) => {
            let w = walk_tree::<T, V>(tree, model, fresh);
            let walked = TreeView { node: w.node, ..tree };
            match w.result {
                Err(e) => ForestWalk { forest: forest.put_tree(walked), model: w.model, error: Some(e) },
                Ok(RecursiveBehaviour::Delete) => ForestWalk {
                    forest: forest.drop_tree(root),
                    model: w.model,
                    error: None,
                },
                Ok(RecursiveBehaviour::Nothing) => ForestWalk {
                    forest: forest.put_tree(walked),
                    model: w.model,
                    error: None,
                },
            }
        },
    }
}

/// The walk of one tree keeps the forest well formed.
pub proof fn lemma_walk_one_wf<T, V: DfsVisitor<T>>(
    forest: ForestView<T>,
    root: Seq<Seq<u8>>,
    model: V::V,
    fresh: T,
)
    requires
        forest.wf(),
    ensures
        walk_one::<T, V>(forest, root, model, fresh).forest.wf(),
{
    forest.lemma_position(root, 0);
    match forest.tree(root) {
        None => {},
        Some(tree) => {
            let w = walk_tree::<T, V>(tree, model, fresh);
            let walked = TreeView { node: w.node, ..tree };
            lemma_walk_wf::<T, V>(tree.node, tree.root, model, fresh);
            forest.lemma_put_tree(walked, root);
            forest.lemma_drop_tree(root, root);
        },
    }
}

/// What every visit keeps of a visitor, a walk of a subtree keeps too.
pub proof fn lemma_walk_keeps<T, V: DfsVisitor<T>>(
    node: NodeView<T>,
    path: Seq<Seq<u8>>,
    model: V::V,
    fresh: T,
    kept: spec_fn(V::V) -> bool,
)
    requires
        kept(model),
        forall|m: V::V, p: Seq<Seq<u8>>, c: Seq<Seq<Seq<u8>>>, i: T, d: bool|
            kept(m) ==> kept(#[trigger] V::step(m, p, c, i, d).model),
    ensures
        kept(walk::<T, V>(node, path, model, fresh).model),
    decreases node, 0nat,
{
    let step = V::step(model, path, child_paths(node, path), node.info, node.is_dir);
    match step.outcome {
        Err(e) => {},
        Ok(Directive::Stop) => {},
        Ok(Directive::Delete) => {},
        Ok(Directive::AddAndStop(new)) => {},
        Ok(directive) => {
            lemma_sweep_keeps::<T, V>(node.children, 0, path, step.model, fresh, kept);
        },
    }
}

/// What every visit keeps of a visitor, a walk of children keeps too.
pub proof fn lemma_sweep_keeps<T, V: DfsVisitor<T>>(
    children: Seq<NodeView<T>>,
    from: int,
    path: Seq<Seq<u8>>,
    model: V::V,
    fresh: T,
    kept: spec_fn(V::V) -> bool,
)
    requires
        0 <= from,
        kept(model),
        forall|m: V::V, p: Seq<Seq<u8>>, c: Seq<Seq<Seq<u8>>>, i: T, d: bool|
            kept(m) ==> kept(#[trigger] V::step(m, p, c, i, d).model),
    ensures
        kept(sweep::<T, V>(children, from, path, model, fresh).model),
    decreases children, children.len() - from,
{
    if from < children.len() {
        let here = children[from];
        let at = path.push(name_or_empty(here.name));
        let w = walk::<T, V>(here, at, model, fresh);
        lemma_walk_keeps::<T, V>(here, at, model, fresh, kept);
        match w.result {
            Err(e) => {},
            Ok(_) => {
                lemma_sweep_keeps::<T, V>(children, from + 1, path, w.model, fresh, kept);
            },
        }
    }
}

/// What every visit keeps of a visitor, the walk of one tree keeps too.
pub proof fn lemma_walk_one_keeps<T, V: DfsVisitor<T>>(
    forest: ForestView<T>,
    root: Seq<Seq<u8>>,
    model: V::V,
    fresh: T,
    kept: spec_fn(V::V) -> bool,
)
    requires
        kept(model),
        forall|m: V::V, p: Seq<Seq<u8>>, c: Seq<Seq<Seq<u8>>>, i: T, d: bool|
            kept(m) ==> kept(#[trigger] V::step(m, p, c, i, d).model),
    ensures
        kept(walk_one::<T, V>(forest, root, model, fresh).model),
{
    match forest.tree(root) {
        None => {},
        Some(tree) => {
            lemma_walk_keeps::<T, V>(tree.node, tree.root, model, fresh, kept);
        },
    }
}

/// Where the walk of each child leaves the visitor as it was and ends
/// without a deletion and without an error, the walk of the children
/// leaves the visitor as it was too, and leaves what the walks of the
/// children left, in their order.
pub proof fn lemma_sweep_steady<T, V: DfsVisitor<T>>(
    children: Seq<NodeView<T>>,
    from: int,
    path: Seq<Seq<u8>>,
    model: V::V,
    fresh: T,
    after: Seq<NodeView<T>>,
)
    requires
        0 <= from <= children.len(),
        after.len() == children.len(),
        forall|k: int|
            from <= k < children.len() ==> walk::<T, V>(
                #[trigger] children[k],
                path.push(name_or_empty(children[k].name)),
                model,
                fresh,
            ) == (Walk { node: after[k], model, result: Ok(RecursiveBehaviour::Nothing) }),
    ensures
        sweep::<T, V>(children, from, path, model, fresh) == (Sweep {
            children: after.subrange(from, after.len() as int),
            model,
            error: None,
        }),
    decreases children.len() - from,
{
    if from < children.len() {
        lemma_sweep_steady::<T, V>(children, from + 1, path, model, fresh, after);
        let here = walk::<T, V>(
            children[from],
            path.push(name_or_empty(children[from].name)),
            model,
            fresh,
        );
        assert(here.node == after[from]);
        assert(seq![after[from]] + after.subrange(from + 1, after.len() as int)
            =~= after.subrange(from, after.len() as int));
    } else {
        assert(after.subrange(from, after.len() as int) =~= Seq::empty());
    }
}

/// What is left of children of which one is walked with a result of its
/// own: the others in their places, and the one as its walk left it, or
/// not at all if its walk ended in `Delete`.
pub open spec fn with_one_walked<M, T>(children: Seq<NodeView<T>>, at: int, one: Walk<M, T>) -> Seq<
    NodeView<T>,
> {
    if one.result == Ok::<RecursiveBehaviour, ErrorView>(RecursiveBehaviour::Delete) {
        children.remove(at)
    } else {
        children.update(at, one.node)
    }
}

/// Where the walk of every child but one leaves the child and the visitor
/// as they were, and the walk of that one ends without an error, the walk
/// of the children leaves the visitor as the one walk left it, and the
/// children as they were but for the one.
pub proof fn lemma_sweep_one_differs<T, V: DfsVisitor<T>>(
    children: Seq<NodeView<T>>,
    from: int,
    path: Seq<Seq<u8>>,
    model: V::V,
    fresh: T,
    at: int,
    one: Walk<V::V, T>,
)
    requires
        0 <= from <= at < children.len(),
        one.result is Ok,
        walk::<T, V>(children[at], path.push(name_or_empty(children[at].name)), model, fresh)
            == one,
        forall|k: int|
            from <= k < at ==> walk::<T, V>(
                #[trigger] children[k],
                path.push(name_or_empty(children[k].name)),
                model,
                fresh,
            ) == (Walk { node: children[k], model, result: Ok(RecursiveBehaviour::Nothing) }),
        forall|k: int|
            at < k < children.len() ==> walk::<T, V>(
                #[trigger] children[k],
                path.push(name_or_empty(children[k].name)),
                one.model,
                fresh,
            ) == (Walk {
                node: children[k],
                model: one.model,
                result: Ok(RecursiveBehaviour::Nothing),
            }),
    ensures
        sweep::<T, V>(children, from, path, model, fresh) == (Sweep {
            children: with_one_walked(children, at, one).subrange(
                from,
                with_one_walked(children, at, one).len() as int,
            ),
            model: one.model,
            error: None,
        }),
    decreases at - from,
{
    let left = with_one_walked(children, at, one);
    if from < at {
        lemma_sweep_one_differs::<T, V>(children, from + 1, path, model, fresh, at, one);
        assert(left[from] == children[from]);
        assert(seq![children[from]] + left.subrange(from + 1, left.len() as int)
            =~= left.subrange(from, left.len() as int));
    } else {
        lemma_sweep_steady::<T, V>(children, at + 1, path, one.model, fresh, children);
        let tail = children.subrange(at + 1, children.len() as int);
        if one.result == Ok::<RecursiveBehaviour, ErrorView>(RecursiveBehaviour::Delete) {
            assert(left.subrange(at, left.len() as int) =~= tail);
        } else {
            assert(seq![one.node] + tail =~= left.subrange(at, left.len() as int));
        }
    }
}

} // verus!
