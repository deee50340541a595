//! The nodes of a path tree, and the tree that they make.

use crate::error::TuxDriveError;
use crate::forest::model::{Entry, NodeView, TreeView};
use crate::forest::walk::{
    behind, child_paths, lemma_walk_wf, name_or_empty, sweep, walk, walk_tree,
};
use crate::forest::{
    default_payload, has_fixed_default, name_view, new_paths_view, paths_view, walk_view,
    DfsFuncBehaviour, DfsMutInfo, DfsVisitor, NewPath, RecursiveBehaviour,
};
use crate::path::{copy_name, same_name, AbsPath};
use vstd::prelude::*;

verus! {

/// The views of some nodes.
pub open spec fn node_views<T>(nodes: Seq<PathNode<T>>) -> Seq<NodeView<T>> {
    Seq::new(nodes.len(), |i: int| nodes[i]@)
}

/// A node of a path tree. It owns the nodes below it.
#[derive(Debug)]
pub struct PathNode<T> {
    name: Option<Vec<u8>>,
    children: Vec<PathNode<T>>,
    info: T,
    is_dir: bool,
}

impl<T> View for PathNode<T> {
    type V = NodeView<T>;

    closed spec fn view(&self) -> NodeView<T>
        decreases self, 0nat,
    {
        NodeView {
            name: name_view(self.name),
            info: self.info,
            is_dir: self.is_dir,
            children: Self::views(self.children@, self.children@.len()),
        }
    }
}

impl<T> PathNode<T> {
    /// The views of the first `upto` of `children`.
    closed spec fn views(children: Seq<PathNode<T>>, upto: nat) -> Seq<NodeView<T>>
        decreases children, upto,
    {
        if upto == 0 || upto > children.len() {
            Seq::empty()
        } else {
            Self::views(children, (upto - 1) as nat).push(children[upto - 1].view())
        }
    }

    proof fn lemma_views(children: Seq<PathNode<T>>, upto: nat)
        requires
            upto <= children.len(),
        ensures
            Self::views(children, upto).len() == upto,
            forall|i: int| 0 <= i < upto ==> Self::views(children, upto)[i] == (#[trigger] children[i])@,
        decreases upto,
    {
        reveal_with_fuel(PathNode::views, 2);
        if upto > 0 {
            Self::lemma_views(children, (upto - 1) as nat);
            assert(Self::views(children, upto) == Self::views(children, (upto - 1) as nat).push(
                children[upto - 1].view(),
            ));
        } else {
            assert(Self::views(children, upto) == Seq::<NodeView<T>>::empty());
        }
    }

    /// The node's own fields and the views of its children make its view.
    proof fn lemma_view(&self)
        ensures
            self@.name == name_view(self.name),
            self@.info == self.info,
            self@.is_dir == self.is_dir,
            self@.children.len() == self.children@.len(),
            forall|i: int|
                #![trigger self.children@[i]]
                #![trigger self@.children[i]]
                0 <= i < self.children@.len() ==> self@.children[i] == self.children@[i]@,
            self@.children == node_views(self.children@),
    {
        Self::lemma_views(self.children@, self.children@.len());
        assert(self@.children =~= node_views(self.children@));
    }

    fn new(name: Option<Vec<u8>>, info: T, is_dir: bool) -> (node: Self)
        ensures
            node@ == NodeView::leaf(name_view(name), info, is_dir),
    {
        let node = Self { name, info, children: Vec::new(), is_dir };
        proof {
            node.lemma_view();
            assert(node@.children =~= Seq::empty());
        }
        node
    }

    /// The index of the child called `name`.
    fn child_index(&self, name: &Vec<u8>) -> (found: Option<usize>)
        ensures
            match found {
                Some(i) => NodeView::position(self@.children, name@, 0) == Some(i as int) && i
                    < self.children@.len(),
                None => NodeView::position(self@.children, name@, 0) is None,
            },
    {
        proof {
            self.lemma_view();
        }
        let mut i: usize = 0;
        while i < self.children.len()
            invariant
                i <= self.children@.len(),
                self@.children.len() == self.children@.len(),
                forall|k: int| 0 <= k < self.children@.len() ==> self@.children[k] == (#[trigger] self.children@[k])@,
                NodeView::position(self@.children, name@, 0) == NodeView::position(
                    self@.children,
                    name@,
                    i as int,
                ),
            decreases self.children@.len() - i,
        {
            proof {
                self.children@[i as int].lemma_view();
            }
            let hit = match &self.children[i].name {
                Some(n) => same_name(n, name),
                None => false,
            };
            if hit {
                return Some(i);
            }
            i += 1;
        }
        None
    }

    fn add_node_rec(&mut self, comps: &AbsPath, from: usize, info: T, is_dir: bool) where
        T: Default,

        requires
            from <= comps@.len(),
            has_fixed_default::<T>(),
        ensures
            final(self)@ == old(self)@.with_path(
                comps@.skip(from as int),
                info,
                is_dir,
                default_payload::<T>(),
            ),
        decreases comps@.len() - from,
    {
        let ghost rel = comps@.skip(from as int);
        let ghost before = self@;
        let ghost fresh = default_payload::<T>();
        proof {
            self.lemma_view();
        }
        let n: usize = comps.len();
        if from == n {
            self.info = info;
            self.is_dir = is_dir;
            proof {
                self.lemma_view();
                assert(self@.children =~= before.children);
            }
            return;
        }
        assert(rel.drop_first() =~= comps@.skip(from + 1));
        let name = comps.component(from);
        match self.child_index(name) {
            Some(i) => {
                let ghost child_before = self.children@[i as int]@;
                let child = &mut self.children[i];
                child.add_node_rec(comps, from + 1, info, is_dir);
                proof {
                    self.lemma_view();
                    assert(self@.children =~= before.children.update(
                        i as int,
                        child_before.with_path(rel.drop_first(), info, is_dir, fresh),
                    ));
                }
            },
            None => {
                let ghost base = NodeView::leaf(Some(name@), fresh, true);
                let node = if from + 1 == n {
                    PathNode::new(Some(copy_name(name)), info, is_dir)
                } else {
                    let mut node = PathNode::new(Some(copy_name(name)), T::default(), true);
                    node.add_node_rec(comps, from + 1, info, is_dir);
                    node
                };
                assert(node@ == base.with_path(rel.drop_first(), info, is_dir, fresh));
                self.children.push(node);
                proof {
                    self.lemma_view();
                    assert(self@.children =~= before.children.push(
                        base.with_path(rel.drop_first(), info, is_dir, fresh),
                    ));
                }
            },
        }
    }

    fn remove_node_rec(&mut self, comps: &AbsPath, from: usize) -> (removed: bool)
        requires
            from < comps@.len(),
        ensures
            final(self)@ == old(self)@.without_path(comps@.skip(from as int)),
            removed == old(self)@.contains(comps@.skip(from as int)),
        decreases comps@.len() - from,
    {
        let ghost rel = comps@.skip(from as int);
        let ghost before = self@;
        proof {
            self.lemma_view();
            assert(rel.drop_first() =~= comps@.skip(from + 1));
        }
        let name = comps.component(from);
        let last: usize = comps.len() - 1;
        match self.child_index(name) {
            Some(i) => {
                assert(before.find(rel) == before.children[i as int].find(rel.drop_first()));
                if from == last {
                    self.children.remove(i);
                    proof {
                        self.lemma_view();
                        assert(self@.children =~= before.children.remove(i as int));
                    }
                    true
                } else {
                    let ghost child_before = self.children@[i as int]@;
                    let child = &mut self.children[i];
                    let removed = child.remove_node_rec(comps, from + 1);
                    proof {
                        self.lemma_view();
                        assert(self@.children =~= before.children.update(
                            i as int,
                            child_before.without_path(rel.drop_first()),
                        ));
                    }
                    removed
                }
            },
            None => false,
        }
    }

    /// The paths of the node's children, where the node has the path `path`.
    fn children_paths(&self, path: &AbsPath) -> (paths: Vec<AbsPath>)
        ensures
            paths_view(paths@) == child_paths(self@, path@),
    {
        proof {
            self.lemma_view();
        }
        let mut paths: Vec<AbsPath> = Vec::with_capacity(self.children.len());
        let mut i: usize = 0;
        while i < self.children.len()
            invariant
                i <= self.children@.len(),
                paths@.len() == i,
                self@.children == node_views(self.children@),
                forall|k: int|
                    0 <= k < i ==> (#[trigger] paths@[k])@ == path@.push(
                        name_or_empty(self@.children[k].name),
                    ),
            decreases self.children@.len() - i,
        {
            proof {
                self.children@[i as int].lemma_view();
            }
            let child_path = match &self.children[i].name {
                Some(n) => path.join(n),
                None => {
                    let empty: Vec<u8> = Vec::new();
                    path.join(&empty)
                },
            };
            paths.push(child_path);
            i += 1;
        }
        assert(paths_view(paths@) =~= child_paths(self@, path@));
        paths
    }

    /// Puts a new child in for each of `new_paths`.
    fn add_new_paths(&mut self, new_paths: Vec<NewPath>) where T: Default
        requires
            has_fixed_default::<T>(),
        ensures
            final(self)@ == old(self)@.with_new(
                new_paths_view(new_paths@),
                default_payload::<T>(),
            ),
    {
        let ghost all = new_paths_view(new_paths@);
        let mut i: usize = 0;
        assert(all.take(0) =~= Seq::empty());
        while i < new_paths.len()
            invariant
                i <= new_paths@.len(),
                all == new_paths_view(new_paths@),
                has_fixed_default::<T>(),
                self@ == old(self)@.with_new(all.take(i as int), default_payload::<T>()),
            decreases new_paths@.len() - i,
        {
            let ghost before = self@;
            proof {
                self.lemma_view();
                assert(all.take(i + 1).drop_last() =~= all.take(i as int));
                assert(all.take(i + 1).last() == new_paths@[i as int]@);
            }
            let entry = &new_paths[i];
            match entry.path.file_name() {
                Some(name) => {
                    let node = PathNode::new(Some(copy_name(name)), T::default(), entry.is_dir);
                    match self.child_index(name) {
                        Some(at) => {
                            self.children[at] = node;
                            proof {
                                self.lemma_view();
                                assert(self@.children =~= before.children.update(at as int, node@));
                            }
                        },
                        None => {
                            self.children.push(node);
                            proof {
                                self.lemma_view();
                                assert(self@.children =~= before.children.push(node@));
                            }
                        },
                    }
                },
                None => {},
            }
            i += 1;
        }
        assert(all.take(new_paths@.len() as int) =~= all);
    }

    /// Walks the nodes in `children`, which belong to the node with the
    /// path `curr_path`, and drops those whose walk ends in `Delete`.
    fn recurse_downwards<V: DfsVisitor<T>>(
        children: &mut Vec<PathNode<T>>,
        curr_path: &mut AbsPath,
        visitor: &mut V,
    ) -> (error: Option<TuxDriveError>) where T: Default
        requires
            has_fixed_default::<T>(),
        ensures
            ({
                let below = sweep::<T, V>(
                    node_views(old(children)@),
                    0,
                    old(curr_path)@,
                    old(visitor)@,
                    default_payload::<T>(),
                );
                &&& node_views(final(children)@) == below.children
                &&& final(visitor)@ == below.model
                &&& final(curr_path)@ == old(curr_path)@
                &&& match error {
                    Some(e) => below.error == Some(e@),
                    None => below.error is None,
                }
            }),
        decreases *old(children), 0nat,
    {
        let ghost nodes = children@;
        let ghost orig = node_views(children@);
        let ghost start = visitor@;
        let ghost path = curr_path@;
        let ghost fresh = default_payload::<T>();
        let ghost mut k: int = 0;
        let ghost mut done: Seq<NodeView<T>> = Seq::empty();
        let mut i: usize = 0;
        proof {
            let all = sweep::<T, V>(orig, 0, path, start, fresh);
            assert(behind(done, all).children =~= all.children);
        }
        while i < children.len()
            invariant
                has_fixed_default::<T>(),
                fresh == default_payload::<T>(),
                curr_path@ == path,
                path == old(curr_path)@,
                start == old(visitor)@,
                nodes == old(children)@,
                orig == node_views(nodes),
                0 <= i <= children@.len(),
                i <= k,
                k + children@.len() - i == nodes.len(),
                done.len() == i,
                forall|j: int| 0 <= j < i ==> (#[trigger] children@[j])@ == done[j],
                forall|j: int| i <= j < children@.len() ==> #[trigger] children@[j] == nodes[j - i + k],
                sweep::<T, V>(orig, 0, path, start, fresh) == behind(
                    done,
                    sweep::<T, V>(orig, k, path, visitor@, fresh),
                ),
            decreases children@.len() - i,
        {
            let ghost model = visitor@;
            let ghost here = sweep::<T, V>(orig, k, path, model, fresh);
            assert(children@[i as int] == nodes[k]);
            proof {
                nodes[k].lemma_view();
            }
            let child = &mut children[i];
            match &child.name {
                Some(n) => curr_path.push(copy_name(n)),
                None => curr_path.push(Vec::new()),
            }
            let outcome = child.dfs_mut(curr_path, visitor);
            curr_path.pop();
            assert(curr_path@ =~= path);
            let ghost w = walk::<T, V>(orig[k], path.push(name_or_empty(orig[k].name)), model, fresh);
            match outcome {
                Err(e) => {
                    proof {
                        assert(node_views(children@) =~= done + (seq![w.node] + orig.subrange(
                            k + 1,
                            orig.len() as int,
                        )));
                    }
                    return Some(e);
                },
                Ok(RecursiveBehaviour::Delete) => {
                    children.remove(i);
                    proof {
                        k = k + 1;
                    }
                },
                Ok(RecursiveBehaviour::Nothing) => {
                    proof {
                        let rest = sweep::<T, V>(orig, k + 1, path, w.model, fresh);
                        assert(behind(done, here).children =~= behind(
                            done.push(w.node),
                            rest,
                        ).children);
                        done = done.push(w.node);
                        k = k + 1;
                    }
                    i += 1;
                },
            }
        }
        proof {
            let rest = sweep::<T, V>(orig, k, path, visitor@, fresh);
            assert(node_views(children@) =~= done + rest.children);
        }
        None
    }

    /// Walks the subtree below this node, which has the path `curr_path`.
    pub fn dfs_mut<V: DfsVisitor<T>>(&mut self, curr_path: &mut AbsPath, visitor: &mut V) -> (r:
        Result<RecursiveBehaviour, TuxDriveError>) where T: Default
        requires
            has_fixed_default::<T>(),
        ensures
            ({
                let w = walk::<T, V>(
                    old(self)@,
                    old(curr_path)@,
                    old(visitor)@,
                    default_payload::<T>(),
                );
                &&& final(self)@ == w.node
                &&& final(visitor)@ == w.model
                &&& final(curr_path)@ == old(curr_path)@
                &&& walk_view(r) == w.result
            }),
        decreases *old(self), 1nat,
    {
        let ghost before = self@;
        let ghost fresh = default_payload::<T>();
        proof {
            self.lemma_view();
        }
        let children_paths = self.children_paths(curr_path);
        let is_dir = self.is_dir;
        let outcome = visitor.visit(
            curr_path,
            DfsMutInfo { children_paths, info: &mut self.info, is_dir },
        );
        let ghost seen = NodeView { info: self.info, ..before };
        proof {
            self.lemma_view();
            assert(self@ == seen);
        }
        match outcome {
            Err(e) => Err(e),
            Ok(DfsFuncBehaviour::Stop) => Ok(RecursiveBehaviour::Nothing),
            Ok(DfsFuncBehaviour::Delete) => Ok(RecursiveBehaviour::Delete),
            Ok(DfsFuncBehaviour::AddAndStop(paths)) => {
                self.add_new_paths(paths);
                Ok(RecursiveBehaviour::Nothing)
            },
            Ok(DfsFuncBehaviour::Continue) => {
                let error = Self::recurse_downwards(&mut self.children, curr_path, visitor);
                proof {
                    self.lemma_view();
                }
                match error {
                    Some(e) => Err(e),
                    None => Ok(RecursiveBehaviour::Nothing),
                }
            },
            Ok(DfsFuncBehaviour::AddAndContinue(paths)) => {
                let error = Self::recurse_downwards(&mut self.children, curr_path, visitor);
                proof {
                    self.lemma_view();
                }
                match error {
                    Some(e) => Err(e),
                    None => {
                        self.add_new_paths(paths);
                        Ok(RecursiveBehaviour::Nothing)
                    },
                }
            },
        }
    }
}

impl<T> PathNode<T> {
    /// The node reached from this one by following the components of
    /// `comps` from the index `from` on.
    fn lookup(&self, comps: &AbsPath, from: usize) -> (found: Option<&PathNode<T>>)
        requires
            from <= comps@.len(),
        ensures
            match found {
                Some(node) => self@.find(comps@.skip(from as int)) == Some(node@),
                None => self@.find(comps@.skip(from as int)) is None,
            },
        decreases comps@.len() - from,
    {
        proof {
            self.lemma_view();
        }
        if from == comps.len() {
            return Some(self);
        }
        assert(comps@.skip(from as int).drop_first() =~= comps@.skip(from + 1));
        match self.child_index(comps.component(from)) {
            Some(i) => self.children[i].lookup(comps, from + 1),
            None => None,
        }
    }

    /// The node's payload.
    pub fn info(&self) -> (info: &T)
        ensures
            *info == self@.info,
    {
        proof {
            self.lemma_view();
        }
        &self.info
    }

    /// Whether the node stands for a directory.
    pub fn is_dir(&self) -> (is_dir: bool)
        ensures
            is_dir == self@.is_dir,
    {
        proof {
            self.lemma_view();
        }
        self.is_dir
    }
}

/// A path tree: the mirror of one watched directory.
#[derive(Debug)]
pub struct PathTree<T> {
    root: AbsPath,
    node: PathNode<T>,
}

impl<T> View for PathTree<T> {
    type V = TreeView<T>;

    closed spec fn view(&self) -> TreeView<T> {
        TreeView { root: self.root@, node: self.node@ }
    }
}

impl<T> PathTree<T> {
    /// The tree is well formed.
    pub open spec fn wf(&self) -> bool {
        self@.wf()
    }

    /// The tree that holds `root_path` alone, as a directory.
    pub(crate) fn new(root_path: &AbsPath) -> (tree: Self) where T: Default
        requires
            has_fixed_default::<T>(),
        ensures
            tree@ == TreeView::single(root_path@, default_payload::<T>()),
    {
        let name = match root_path.file_name() {
            Some(n) => Some(copy_name(n)),
            None => None,
        };
        PathTree { root: root_path.clone(), node: PathNode::new(name, T::default(), true) }
    }

    /// Whether `root` is the path of the tree's root.
    pub fn has_root(&self, root: &AbsPath) -> (yes: bool)
        ensures
            yes == (self@.root == root@),
    {
        self.root.same_as(root)
    }

    /// The path of the tree's root.
    pub fn root_path(&self) -> (root: AbsPath)
        ensures
            root@ == self@.root,
    {
        self.root.clone()
    }

    /// Whether the tree may hold `path`: its root or a path below it.
    pub fn is_path_compatible(&self, path: &AbsPath) -> (yes: bool)
        ensures
            yes == self@.covers(path@),
    {
        path.starts_with(&self.root)
    }

    /// What the tree records about `path`: the payload, and whether the
    /// path is a directory.
    pub fn lookup(&self, path: &AbsPath) -> (found: Option<(&T, bool)>)
        ensures
            match found {
                Some((info, is_dir)) => self@.entry(path@) == Some(
                    Entry { info: *info, is_dir },
                ),
                None => self@.entry(path@) is None,
            },
    {
        if !path.starts_with(&self.root) {
            return None;
        }
        match self.node.lookup(path, self.root.len()) {
            Some(node) => Some((node.info(), node.is_dir())),
            None => None,
        }
    }

    pub(crate) fn add_path(&mut self, path: &AbsPath, info: T, is_dir: bool) where T: Default
        requires
            old(self)@.covers(path@),
            has_fixed_default::<T>(),
        ensures
            final(self)@ == old(self)@.with_path(path@, info, is_dir, default_payload::<T>()),
    {
        let n: usize = self.root.len();
        self.node.add_node_rec(path, n, info, is_dir);
    }

    pub(crate) fn remove_path(&mut self, path: &AbsPath) -> (removed: bool)
        requires
            old(self)@.covers(path@),
            path@.len() > old(self)@.root.len(),
        ensures
            final(self)@ == old(self)@.without_path(path@),
            removed == old(self)@.contains(path@),
    {
        let n: usize = self.root.len();
        self.node.remove_node_rec(path, n)
    }

    /// Walks the tree from its root.
    pub fn dfs_mut<V: DfsVisitor<T>>(&mut self, visitor: &mut V) -> (r: Result<
        RecursiveBehaviour,
        TuxDriveError,
    >) where T: Default
        requires
            has_fixed_default::<T>(),
        ensures
            ({
                let w = walk_tree::<T, V>(old(self)@, old(visitor)@, default_payload::<T>());
                &&& final(self)@ == (TreeView { node: w.node, ..old(self)@ })
                &&& final(visitor)@ == w.model
                &&& walk_view(r) == w.result
            }),
            old(self).wf() ==> final(self).wf(),
    {
        proof {
            if self.wf() {
                lemma_walk_wf::<T, V>(self@.node, self@.root, visitor@, default_payload::<T>());
            }
        }
        let mut root_path = self.root.clone();
        self.node.dfs_mut(&mut root_path, visitor)
    }
}

} // verus!
