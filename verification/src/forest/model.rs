//! The mathematical model of a path tree: nodes with named children, and
//! what adding and removing paths does to them.

use crate::path::extends;
use vstd::prelude::*;

verus! {

/// What a tree records about one path.
pub struct Entry<T> {
    pub info: T,
    pub is_dir: bool,
}

/// A node of a path tree, with the subtree below it.
pub struct NodeView<T> {
    /// The last component of the node's path. Only the node that stands for
    /// the file system's root has none.
    pub name: Option<Seq<u8>>,
    pub info: T,
    pub is_dir: bool,
    pub children: Seq<NodeView<T>>,
}

/// Taking the first component off both paths changes neither whether they
/// are equal nor whether one extends the other.
pub proof fn lemma_extends_step(q: Seq<Seq<u8>>, p: Seq<Seq<u8>>)
    requires
        q.len() > 0,
        p.len() > 0,
    ensures
        extends(q, p) <==> q[0] == p[0] && extends(q.drop_first(), p.drop_first()),
        q == p <==> q[0] == p[0] && q.drop_first() == p.drop_first(),
{
    if extends(q, p) {
        assert(q.subrange(0, p.len() as int)[0] == p[0]);
        assert(q.drop_first().subrange(0, p.len() - 1) =~= q.subrange(0, p.len() as int).drop_first());
    }
    if q[0] == p[0] && extends(q.drop_first(), p.drop_first()) {
        assert(q.subrange(0, p.len() as int) =~= seq![q[0]] + q.drop_first().subrange(
            0,
            p.len() - 1,
        ));
        assert(p =~= seq![p[0]] + p.drop_first());
    }
    if q[0] == p[0] && q.drop_first() == p.drop_first() {
        assert(p =~= seq![p[0]] + p.drop_first());
        assert(q =~= seq![q[0]] + q.drop_first());
    }
}

/// What a tree records about `q` after `rel` was added with `info` and
/// `is_dir`, where it recorded `before`: the added path has the given
/// entry, each path above it is kept or, where it was missing, becomes a
/// directory with the payload `fresh`, and every other path, what lay below
/// the added path too, is as before.
pub open spec fn entry_after_add<T>(
    before: Option<Entry<T>>,
    q: Seq<Seq<u8>>,
    rel: Seq<Seq<u8>>,
    info: T,
    is_dir: bool,
    fresh: T,
) -> Option<Entry<T>> {
    if q == rel {
        Some(Entry { info, is_dir })
    } else if extends(rel, q) {
        match before {
            Some(e) => Some(e),
            None => Some(Entry { info: fresh, is_dir: true }),
        }
    } else {
        before
    }
}

/// What a tree records about `q` after `rel` was removed, where it recorded
/// `before`: `rel` and what lay below it are gone, every other path is as
/// before.
pub open spec fn entry_after_remove<T>(
    before: Option<Entry<T>>,
    q: Seq<Seq<u8>>,
    rel: Seq<Seq<u8>>,
) -> Option<Entry<T>> {
    if extends(q, rel) {
        None
    } else {
        before
    }
}

impl<T> NodeView<T> {
    /// A node without children.
    pub open spec fn leaf(name: Option<Seq<u8>>, info: T, is_dir: bool) -> Self {
        NodeView { name, info, is_dir, children: Seq::empty() }
    }

    /// The index of the first node among `children`, from `from` on, that is
    /// called `name`.
    pub open spec fn position(children: Seq<Self>, name: Seq<u8>, from: int) -> Option<int>
        decreases children.len() - from,
    {
        if from < 0 || from >= children.len() {
            None
        } else if children[from].name == Some(name) {
            Some(from)
        } else {
            Self::position(children, name, from + 1)
        }
    }

    /// Every node below this one has a name, and no two children of one node
    /// share a name.
    pub open spec fn wf(self) -> bool
        decreases self,
    {
        &&& forall|i: int|
            0 <= i < self.children.len() ==> (#[trigger] self.children[i]).name is Some
                && self.children[i].wf()
        &&& forall|i: int, j: int|
            0 <= i < j < self.children.len() ==> (#[trigger] self.children[i]).name != (
            #[trigger] self.children[j]).name
    }

    /// The node reached from this one by following the names in `rel`.
    pub open spec fn find(self, rel: Seq<Seq<u8>>) -> Option<Self>
        decreases rel.len(),
    {
        if rel.len() == 0 {
            Some(self)
        } else {
            match Self::position(self.children, rel[0], 0) {
                Some(i) => self.children[i].find(rel.drop_first()),
                None => None,
            }
        }
    }

    /// What the tree records about the path `rel` below this node.
    pub open spec fn entry(self, rel: Seq<Seq<u8>>) -> Option<Entry<T>> {
        match self.find(rel) {
            Some(node) => Some(Entry { info: node.info, is_dir: node.is_dir }),
            None => None,
        }
    }

    /// Whether the tree holds the path `rel` below this node.
    pub open spec fn contains(self, rel: Seq<Seq<u8>>) -> bool {
        self.find(rel) is Some
    }

    /// This node with `child` among its children, in the place of the child
    /// of the same name if there is one, and else behind the others.
    pub open spec fn put_child(self, child: Self) -> Self {
        match Self::position(self.children, child.name.unwrap(), 0) {
            Some(i) => NodeView { children: self.children.update(i, child), ..self },
            None => NodeView { children: self.children.push(child), ..self },
        }
    }

    /// This node after the path `rel` below it was added: the node at the
    /// end of the path holds `info` and `is_dir`, and keeps what lay below it
    /// if it was there before; directories that were missing on the way are
    /// made with the payload `fresh`.
    pub open spec fn with_path(self, rel: Seq<Seq<u8>>, info: T, is_dir: bool, fresh: T) -> Self
        decreases rel.len(),
    {
        if rel.len() == 0 {
            NodeView { info, is_dir, ..self }
        } else {
            match Self::position(self.children, rel[0], 0) {
                Some(i) => NodeView {
                    children: self.children.update(
                        i,
                        self.children[i].with_path(rel.drop_first(), info, is_dir, fresh),
                    ),
                    ..self
                },
                None => NodeView {
                    children: self.children.push(
                        Self::leaf(Some(rel[0]), fresh, true).with_path(
                            rel.drop_first(),
                            info,
                            is_dir,
                            fresh,
                        ),
                    ),
                    ..self
                },
            }
        }
    }

    /// This node after the path `rel` below it was removed with all that lay
    /// below that path.
    pub open spec fn without_path(self, rel: Seq<Seq<u8>>) -> Self
        decreases rel.len(),
    {
        if rel.len() == 0 {
            self
        } else {
            match Self::position(self.children, rel[0], 0) {
                Some(i) => if rel.len() == 1 {
                    NodeView { children: self.children.remove(i), ..self }
                } else {
                    NodeView {
                        children: self.children.update(
                            i,
                            self.children[i].without_path(rel.drop_first()),
                        ),
                        ..self
                    }
                },
                None => self,
            }
        }
    }

    /// `position` finds a child of that name if and only if there is one from
    /// `from` on, and it finds the first.
    pub proof fn lemma_position(children: Seq<Self>, name: Seq<u8>, from: int)
        requires
            0 <= from,
        ensures
            match Self::position(children, name, from) {
                Some(i) => from <= i < children.len() && children[i].name == Some(name)
                    && forall|j: int| from <= j < i ==> (#[trigger] children[j]).name != Some(name),
                None => forall|j: int|
                    from <= j < children.len() ==> (#[trigger] children[j]).name != Some(name),
            },
        decreases children.len() - from,
    {
        if from < children.len() && children[from].name != Some(name) {
            Self::lemma_position(children, name, from + 1);
        }
    }

    /// Where names are unique, the child called `name` is found wherever it
    /// stands.
    pub proof fn lemma_position_unique(children: Seq<Self>, name: Seq<u8>, i: int)
        requires
            0 <= i < children.len(),
            children[i].name == Some(name),
            forall|a: int, b: int|
                0 <= a < b < children.len() ==> (#[trigger] children[a]).name != (
                #[trigger] children[b]).name,
        ensures
            Self::position(children, name, 0) == Some(i),
    {
        Self::lemma_position(children, name, 0);
    }

    /// Replacing a child by one of the same name moves no child.
    pub proof fn lemma_position_update(children: Seq<Self>, i: int, child: Self, name: Seq<u8>)
        requires
            0 <= i < children.len(),
            child.name == children[i].name,
        ensures
            Self::position(children.update(i, child), name, 0) == Self::position(children, name, 0),
    {
        let after = children.update(i, child);
        Self::lemma_position(children, name, 0);
        Self::lemma_position(after, name, 0);
        match Self::position(children, name, 0) {
            Some(a) => {
                assert(after[a].name == Some(name));
                match Self::position(after, name, 0) {
                    Some(b) => {
                        if b < a {
                            assert(children[b].name != Some(name));
                        }
                        if a < b {
                            assert(after[a].name != Some(name));
                        }
                    },
                    None => {},
                }
            },
            None => {
                match Self::position(after, name, 0) {
                    Some(b) => {
                        assert(children[b].name != Some(name));
                    },
                    None => {},
                }
            },
        }
    }

    /// Appending a child of a new name moves no child, and the new child is
    /// found behind the others.
    pub proof fn lemma_position_push(children: Seq<Self>, child: Self, name: Seq<u8>)
        requires
            child.name is Some,
            Self::position(children, child.name.unwrap(), 0) is None,
        ensures
            Self::position(children.push(child), name, 0) == if child.name == Some(name) {
                Some(children.len() as int)
            } else {
                Self::position(children, name, 0)
            },
    {
        let after = children.push(child);
        Self::lemma_position(children, name, 0);
        Self::lemma_position(children, child.name.unwrap(), 0);
        Self::lemma_position(after, name, 0);
        match Self::position(after, name, 0) {
            Some(b) => {
                if b < children.len() {
                    assert(children[b].name == Some(name));
                    match Self::position(children, name, 0) {
                        Some(a) => {
                            if a < b {
                                assert(after[a].name != Some(name));
                            }
                        },
                        None => {},
                    }
                }
            },
            None => {
                assert(after[children.len() as int].name != Some(name));
                match Self::position(children, name, 0) {
                    Some(a) => {
                        assert(after[a].name == Some(name));
                    },
                    None => {},
                }
            },
        }
    }

    /// Removing a child moves no child of another name out of reach, and
    /// where names are unique the removed name is no longer found.
    pub proof fn lemma_position_remove(children: Seq<Self>, i: int, name: Seq<u8>)
        requires
            0 <= i < children.len(),
            forall|a: int, b: int|
                0 <= a < b < children.len() ==> (#[trigger] children[a]).name != (
                #[trigger] children[b]).name,
        ensures
            children[i].name == Some(name) ==> Self::position(children.remove(i), name, 0) is None,
            children[i].name != Some(name) ==> match Self::position(children, name, 0) {
                Some(a) => a != i && Self::position(children.remove(i), name, 0) == Some(
                    if a < i {
                        a
                    } else {
                        a - 1
                    },
                ),
                None => Self::position(children.remove(i), name, 0) is None,
            },
    {
        let after = children.remove(i);
        Self::lemma_position(children, name, 0);
        Self::lemma_position(after, name, 0);
        assert forall|b: int| 0 <= b < after.len() implies #[trigger] after[b] == children[if b < i {
            b
        } else {
            b + 1
        }] by {}
        match Self::position(after, name, 0) {
            Some(b) => {
                let a = if b < i {
                    b
                } else {
                    b + 1
                };
                assert(children[a].name == Some(name));
                Self::lemma_position_unique(children, name, a);
            },
            None => {
                match Self::position(children, name, 0) {
                    Some(a) => {
                        if a != i {
                            let b = if a < i {
                                a
                            } else {
                                a - 1
                            };
                            assert(after[b].name == Some(name));
                        }
                    },
                    None => {},
                }
            },
        }
    }

    /// A node without children holds no path but its own.
    pub proof fn lemma_leaf_find(name: Option<Seq<u8>>, info: T, is_dir: bool, q: Seq<Seq<u8>>)
        ensures
            Self::leaf(name, info, is_dir).wf(),
            Self::leaf(name, info, is_dir).find(q) == if q.len() == 0 {
                Some(Self::leaf(name, info, is_dir))
            } else {
                None
            },
    {
    }

    /// Adding a path keeps the tree well formed.
    pub proof fn lemma_with_path_wf(self, rel: Seq<Seq<u8>>, info: T, is_dir: bool, fresh: T)
        requires
            self.wf(),
        ensures
            self.with_path(rel, info, is_dir, fresh).wf(),
            self.with_path(rel, info, is_dir, fresh).name == self.name,
        decreases rel.len(),
    {
        if rel.len() > 0 {
            let after = self.with_path(rel, info, is_dir, fresh);
            let rest = rel.drop_first();
            Self::lemma_position(self.children, rel[0], 0);
            match Self::position(self.children, rel[0], 0) {
                Some(i) => {
                    let child = self.children[i].with_path(rest, info, is_dir, fresh);
                    self.children[i].lemma_with_path_wf(rest, info, is_dir, fresh);
                    assert(after.children == self.children.update(i, child));
                    assert forall|k: int| 0 <= k < after.children.len() implies (
                    #[trigger] after.children[k]).name == self.children[k].name
                        && after.children[k].wf() by {}
                },
                None => {
                    let base = Self::leaf(Some(rel[0]), fresh, true);
                    let child = base.with_path(rest, info, is_dir, fresh);
                    base.lemma_with_path_wf(rest, info, is_dir, fresh);
                    assert(after.children == self.children.push(child));
                    assert forall|k: int| 0 <= k < after.children.len() implies (
                    #[trigger] after.children[k]).name is Some && after.children[k].wf() by {}
                    assert forall|a: int, b: int| 0 <= a < b < after.children.len() implies (
                    #[trigger] after.children[a]).name != (#[trigger] after.children[b]).name by {
                        if b == self.children.len() {
                            assert(self.children[a].name != Some(rel[0]));
                        }
                    }
                },
            }
        }
    }

    /// What adding a path does, path by path.
    pub proof fn lemma_with_path_entry(
        self,
        rel: Seq<Seq<u8>>,
        info: T,
        is_dir: bool,
        fresh: T,
        q: Seq<Seq<u8>>,
    )
        ensures
            self.with_path(rel, info, is_dir, fresh).entry(q) == entry_after_add(
                self.entry(q),
                q,
                rel,
                info,
                is_dir,
                fresh,
            ),
        decreases rel.len(),
    {
        let after = self.with_path(rel, info, is_dir, fresh);
        if rel.len() == 0 {
            if q.len() == 0 {
                assert(q =~= rel);
            } else {
                assert(after.find(q) == self.find(q));
            }
        } else {
            let rest = rel.drop_first();
            if q.len() == 0 {
                assert(rel.subrange(0, 0) =~= q);
            } else {
                lemma_extends_step(q, rel);
                lemma_extends_step(rel, q);
                let qr = q.drop_first();
                if qr.len() == 0 {
                    assert(rest.subrange(0, 0) =~= qr);
                    assert(extends(rest, qr));
                }
                Self::lemma_position(self.children, rel[0], 0);
                Self::lemma_position(self.children, q[0], 0);
                match Self::position(self.children, rel[0], 0) {
                    Some(i) => {
                        let child = self.children[i].with_path(rest, info, is_dir, fresh);
                        self.children[i].lemma_with_path_name(rest, info, is_dir, fresh);
                        assert(after.children == self.children.update(i, child));
                        Self::lemma_position_update(self.children, i, child, q[0]);
                        if q[0] == rel[0] {
                            self.children[i].lemma_with_path_entry(rest, info, is_dir, fresh, qr);
                        }
                    },
                    None => {
                        let base = Self::leaf(Some(rel[0]), fresh, true);
                        let child = base.with_path(rest, info, is_dir, fresh);
                        base.lemma_with_path_name(rest, info, is_dir, fresh);
                        assert(after.children == self.children.push(child));
                        Self::lemma_position_push(self.children, child, q[0]);
                        if q[0] == rel[0] {
                            Self::lemma_leaf_find(Some(rel[0]), fresh, true, qr);
                            base.lemma_with_path_entry(rest, info, is_dir, fresh, qr);
                        } else {
                            assert(after.find(q) == self.find(q));
                        }
                    },
                }
            }
        }
    }

    /// Adding a path below a node leaves the node's own name as it is.
    pub proof fn lemma_with_path_name(self, rel: Seq<Seq<u8>>, info: T, is_dir: bool, fresh: T)
        ensures
            self.with_path(rel, info, is_dir, fresh).name == self.name,
    {
    }

    /// Putting a child in keeps the node well formed, and says, path by
    /// path, what the node records afterwards: below the child's name what
    /// the child records, and all else as before.
    pub proof fn lemma_put_child(self, child: Self, q: Seq<Seq<u8>>)
        requires
            self.wf(),
            child.wf(),
            child.name is Some,
        ensures
            self.put_child(child).wf(),
            self.put_child(child).name == self.name,
            self.put_child(child).info == self.info,
            self.put_child(child).is_dir == self.is_dir,
            self.put_child(child).entry(q) == if q.len() > 0 && q[0] == child.name.unwrap() {
                child.entry(q.drop_first())
            } else {
                self.entry(q)
            },
            q.len() > 0 ==> self.put_child(child).find(q) == if q[0] == child.name.unwrap() {
                child.find(q.drop_first())
            } else {
                self.find(q)
            },
    {
        let after = self.put_child(child);
        let name = child.name.unwrap();
        Self::lemma_position(self.children, name, 0);
        match Self::position(self.children, name, 0) {
            Some(i) => {
                assert(after.children == self.children.update(i, child));
                assert forall|k: int| 0 <= k < after.children.len() implies (
                #[trigger] after.children[k]).name == self.children[k].name
                    && after.children[k].wf() by {}
                if q.len() > 0 {
                    Self::lemma_position_update(self.children, i, child, q[0]);
                    Self::lemma_position(self.children, q[0], 0);
                }
            },
            None => {
                assert(after.children == self.children.push(child));
                assert forall|k: int| 0 <= k < after.children.len() implies (
                #[trigger] after.children[k]).name is Some && after.children[k].wf() by {}
                assert forall|a: int, b: int| 0 <= a < b < after.children.len() implies (
                #[trigger] after.children[a]).name != (#[trigger] after.children[b]).name by {
                    if b == self.children.len() {
                        assert(self.children[a].name != Some(name));
                    }
                }
                if q.len() > 0 {
                    Self::lemma_position_push(self.children, child, q[0]);
                    Self::lemma_position(self.children, q[0], 0);
                    if q[0] != name {
                        assert(after.find(q) == self.find(q));
                    }
                }
            },
        }
    }

    /// Removing a path keeps the tree well formed.
    pub proof fn lemma_without_path_wf(self, rel: Seq<Seq<u8>>)
        requires
            self.wf(),
        ensures
            self.without_path(rel).wf(),
            self.without_path(rel).name == self.name,
        decreases rel.len(),
    {
        if rel.len() > 0 {
            let after = self.without_path(rel);
            Self::lemma_position(self.children, rel[0], 0);
            match Self::position(self.children, rel[0], 0) {
                Some(i) => {
                    if rel.len() == 1 {
                        assert(after.children == self.children.remove(i));
                        assert forall|k: int| 0 <= k < after.children.len() implies (
                        #[trigger] after.children[k]) == self.children[if k < i {
                            k
                        } else {
                            k + 1
                        }] by {}
                    } else {
                        let child = self.children[i].without_path(rel.drop_first());
                        self.children[i].lemma_without_path_wf(rel.drop_first());
                        assert(after.children == self.children.update(i, child));
                        assert forall|k: int| 0 <= k < after.children.len() implies (
                        #[trigger] after.children[k]).name == self.children[k].name
                            && after.children[k].wf() by {}
                    }
                },
                None => {},
            }
        }
    }

    /// What removing a path does, path by path.
    pub proof fn lemma_without_path_entry(self, rel: Seq<Seq<u8>>, q: Seq<Seq<u8>>)
        requires
            self.wf(),
            rel.len() > 0,
        ensures
            self.without_path(rel).entry(q) == entry_after_remove(self.entry(q), q, rel),
        decreases rel.len(),
    {
        let after = self.without_path(rel);
        let rest = rel.drop_first();
        if q.len() > 0 {
            lemma_extends_step(q, rel);
            let qr = q.drop_first();
            if rel.len() == 1 {
                assert(qr.subrange(0, 0) =~= rest);
            }
            Self::lemma_position(self.children, rel[0], 0);
            Self::lemma_position(self.children, q[0], 0);
            match Self::position(self.children, rel[0], 0) {
                Some(i) => {
                    if rel.len() == 1 {
                        assert(after.children == self.children.remove(i));
                        Self::lemma_position_remove(self.children, i, q[0]);
                    } else {
                        let child = self.children[i].without_path(rest);
                        self.children[i].lemma_without_path_wf(rest);
                        assert(after.children == self.children.update(i, child));
                        Self::lemma_position_update(self.children, i, child, q[0]);
                        if q[0] == rel[0] {
                            self.children[i].lemma_without_path_entry(rest, qr);
                        }
                    }
                },
                None => {},
            }
        }
    }
}

/// A path tree: the path of its root, and the nodes.
pub struct TreeView<T> {
    pub root: Seq<Seq<u8>>,
    pub node: NodeView<T>,
}

impl<T> TreeView<T> {
    /// The name that the root node must have: the last component of the
    /// root's path.
    pub open spec fn root_name(root: Seq<Seq<u8>>) -> Option<Seq<u8>> {
        if root.len() == 0 {
            None
        } else {
            Some(root.last())
        }
    }

    /// The nodes are well formed, and the root node is named after the
    /// root's path.
    pub open spec fn wf(self) -> bool {
        self.node.wf() && self.node.name == Self::root_name(self.root)
    }

    /// The tree that holds the root alone, as a directory.
    pub open spec fn single(root: Seq<Seq<u8>>, info: T) -> Self {
        TreeView { root, node: NodeView::leaf(Self::root_name(root), info, true) }
    }

    /// Whether the tree may hold `path`: the root or a path below it.
    pub open spec fn covers(self, path: Seq<Seq<u8>>) -> bool {
        extends(path, self.root)
    }

    /// What the tree records about the absolute path `path`.
    pub open spec fn entry(self, path: Seq<Seq<u8>>) -> Option<Entry<T>> {
        if self.covers(path) {
            self.node.entry(path.skip(self.root.len() as int))
        } else {
            None
        }
    }

    /// Whether the tree holds the absolute path `path`.
    pub open spec fn contains(self, path: Seq<Seq<u8>>) -> bool {
        self.entry(path) is Some
    }

    /// The tree after `path`, which it covers, was added: the node at the
    /// path holds `info` and `is_dir`, and what lay below it stays.
    pub open spec fn with_path(self, path: Seq<Seq<u8>>, info: T, is_dir: bool, fresh: T) -> Self {
        TreeView {
            node: self.node.with_path(path.skip(self.root.len() as int), info, is_dir, fresh),
            ..self
        }
    }

    /// The tree after `path`, which lies below the root, was removed with
    /// all that lay below it.
    pub open spec fn without_path(self, path: Seq<Seq<u8>>) -> Self {
        TreeView { node: self.node.without_path(path.skip(self.root.len() as int)), ..self }
    }

    /// Adding a path keeps the tree well formed and says, path by path,
    /// what the tree records afterwards.
    pub proof fn lemma_with_path(
        self,
        path: Seq<Seq<u8>>,
        info: T,
        is_dir: bool,
        fresh: T,
        q: Seq<Seq<u8>>,
    )
        requires
            self.wf(),
            self.covers(path),
        ensures
            self.with_path(path, info, is_dir, fresh).wf(),
            self.with_path(path, info, is_dir, fresh).root == self.root,
            self.covers(q) ==> self.with_path(path, info, is_dir, fresh).entry(q)
                == entry_after_add(self.entry(q), q, path, info, is_dir, fresh),
    {
        let n = self.root.len() as int;
        let rel = path.skip(n);
        self.node.lemma_with_path_wf(rel, info, is_dir, fresh);
        if self.covers(q) {
            self.node.lemma_with_path_entry(rel, info, is_dir, fresh, q.skip(n));
            lemma_extends_below(q, path, self.root);
            lemma_extends_below(path, q, self.root);
        }
    }

    /// Removing a path below the root keeps the tree well formed and says,
    /// path by path, what the tree records afterwards.
    pub proof fn lemma_without_path(self, path: Seq<Seq<u8>>, q: Seq<Seq<u8>>)
        requires
            self.wf(),
            self.covers(path),
            path.len() > self.root.len(),
        ensures
            self.without_path(path).wf(),
            self.without_path(path).root == self.root,
            self.without_path(path).entry(q) == entry_after_remove(self.entry(q), q, path),
    {
        let n = self.root.len() as int;
        let rel = path.skip(n);
        self.node.lemma_without_path_wf(rel);
        if self.covers(q) {
            self.node.lemma_without_path_entry(rel, q.skip(n));
            lemma_extends_below(q, path, self.root);
        } else {
            lemma_extends_chain(q, path, self.root);
        }
    }
}

/// Below a common start `base`, one path extends another, or equals it, if
/// and only if the same holds of what follows `base`.
pub proof fn lemma_extends_below(q: Seq<Seq<u8>>, p: Seq<Seq<u8>>, base: Seq<Seq<u8>>)
    requires
        extends(q, base),
        extends(p, base),
    ensures
        extends(q, p) <==> extends(q.skip(base.len() as int), p.skip(base.len() as int)),
        q == p <==> q.skip(base.len() as int) == p.skip(base.len() as int),
{
    let n = base.len() as int;
    let qs = q.skip(n);
    let ps = p.skip(n);
    assert(q =~= base + qs) by {
        assert(q.subrange(0, n) == base);
        assert(q =~= q.subrange(0, n) + q.skip(n));
    }
    assert(p =~= base + ps) by {
        assert(p.subrange(0, n) == base);
        assert(p =~= p.subrange(0, n) + p.skip(n));
    }
    if extends(q, p) {
        assert(qs.subrange(0, ps.len() as int) =~= q.subrange(0, p.len() as int).skip(n));
    }
    if extends(qs, ps) {
        assert(q.subrange(0, p.len() as int) =~= base + qs.subrange(0, ps.len() as int));
    }
}

/// A path that extends `p`, which extends `base`, extends `base`.
pub proof fn lemma_extends_chain(q: Seq<Seq<u8>>, p: Seq<Seq<u8>>, base: Seq<Seq<u8>>)
    requires
        extends(p, base),
    ensures
        extends(q, p) ==> extends(q, base),
{
    if extends(q, p) {
        assert(q.subrange(0, base.len() as int) =~= q.subrange(0, p.len() as int).subrange(
            0,
            base.len() as int,
        ));
    }
}

/// A path forest: its trees, in the order in which they are walked.
pub struct ForestView<T> {
    pub trees: Seq<TreeView<T>>,
}

impl<T> ForestView<T> {
    /// The index of the first tree, from `from` on, whose root is `root`.
    pub open spec fn position(self, root: Seq<Seq<u8>>, from: int) -> Option<int>
        decreases self.trees.len() - from,
    {
        if from < 0 || from >= self.trees.len() {
            None
        } else if self.trees[from].root == root {
            Some(from)
        } else {
            self.position(root, from + 1)
        }
    }

    /// Every tree is well formed, and no two trees have the same root.
    pub open spec fn wf(self) -> bool {
        &&& forall|i: int| 0 <= i < self.trees.len() ==> (#[trigger] self.trees[i]).wf()
        &&& forall|i: int, j: int|
            0 <= i < j < self.trees.len() ==> (#[trigger] self.trees[i]).root != (
            #[trigger] self.trees[j]).root
    }

    /// The tree whose root is `root`.
    pub open spec fn tree(self, root: Seq<Seq<u8>>) -> Option<TreeView<T>> {
        match self.position(root, 0) {
            Some(i) => Some(self.trees[i]),
            None => None,
        }
    }

    /// Whether `root` is the root of a tree.
    pub open spec fn has_root(self, root: Seq<Seq<u8>>) -> bool {
        self.tree(root) is Some
    }

    /// What the tree with the root `root` records about `path`.
    pub open spec fn entry(self, root: Seq<Seq<u8>>, path: Seq<Seq<u8>>) -> Option<Entry<T>> {
        match self.tree(root) {
            Some(tree) => tree.entry(path),
            None => None,
        }
    }

    /// The forest with `tree` in the place of the tree of the same root, or
    /// behind the others if there is none.
    pub open spec fn put_tree(self, tree: TreeView<T>) -> Self {
        match self.position(tree.root, 0) {
            Some(i) => ForestView { trees: self.trees.update(i, tree) },
            None => ForestView { trees: self.trees.push(tree) },
        }
    }

    /// The forest without the tree whose root is `root`.
    pub open spec fn drop_tree(self, root: Seq<Seq<u8>>) -> Self {
        match self.position(root, 0) {
            Some(i) => ForestView { trees: self.trees.remove(i) },
            None => self,
        }
    }

    /// The tree with the root `root`, or the tree that holds `root` alone,
    /// with the payload `fresh`, where `root` is not registered.
    pub open spec fn tree_or_single(self, root: Seq<Seq<u8>>, fresh: T) -> TreeView<T> {
        match self.tree(root) {
            Some(tree) => tree,
            None => TreeView::single(root, fresh),
        }
    }

    /// The forest after `path` was added to the tree with the root `root`,
    /// which is made first where it is missing.
    pub open spec fn with_path(
        self,
        root: Seq<Seq<u8>>,
        path: Seq<Seq<u8>>,
        info: T,
        is_dir: bool,
        fresh: T,
    ) -> Self {
        self.put_tree(self.tree_or_single(root, fresh).with_path(path, info, is_dir, fresh))
    }

    /// The forest after `path` was removed from the tree with the root
    /// `root`; removing the root removes the tree.
    pub open spec fn without_path(self, root: Seq<Seq<u8>>, path: Seq<Seq<u8>>) -> Self {
        match self.tree(root) {
            Some(tree) => if path.len() <= root.len() {
                self.drop_tree(root)
            } else {
                self.put_tree(tree.without_path(path))
            },
            None => self,
        }
    }

    /// `position` finds a tree of that root if and only if there is one from
    /// `from` on, and it finds the first.
    pub proof fn lemma_position(self, root: Seq<Seq<u8>>, from: int)
        requires
            0 <= from,
        ensures
            match self.position(root, from) {
                Some(i) => from <= i < self.trees.len() && self.trees[i].root == root
                    && forall|j: int| from <= j < i ==> (#[trigger] self.trees[j]).root != root,
                None => forall|j: int|
                    from <= j < self.trees.len() ==> (#[trigger] self.trees[j]).root != root,
            },
        decreases self.trees.len() - from,
    {
        if from < self.trees.len() && self.trees[from].root != root {
            self.lemma_position(root, from + 1);
        }
    }

    /// In a well-formed forest the tree that stands at `i` is the tree of
    /// its root.
    pub proof fn lemma_tree_at(self, i: int)
        requires
            self.wf(),
            0 <= i < self.trees.len(),
        ensures
            self.position(self.trees[i].root, 0) == Some(i),
            self.tree(self.trees[i].root) == Some(self.trees[i]),
    {
        self.lemma_position(self.trees[i].root, 0);
    }

    /// Putting a well-formed tree in keeps the forest well formed, makes
    /// the tree the one of its root, and leaves the trees of other roots as
    /// they are.
    pub proof fn lemma_put_tree(self, tree: TreeView<T>, root: Seq<Seq<u8>>)
        requires
            self.wf(),
            tree.wf(),
        ensures
            self.put_tree(tree).wf(),
            self.put_tree(tree).tree(root) == if root == tree.root {
                Some(tree)
            } else {
                self.tree(root)
            },
    {
        let after = self.put_tree(tree);
        self.lemma_position(tree.root, 0);
        self.lemma_position(root, 0);
        after.lemma_position(root, 0);
        match self.position(tree.root, 0) {
            Some(i) => {
                assert(after.trees == self.trees.update(i, tree));
                assert forall|a: int, b: int| 0 <= a < b < after.trees.len() implies (
                #[trigger] after.trees[a]).root != (#[trigger] after.trees[b]).root by {
                    assert(after.trees[a].root == self.trees[a].root);
                    assert(after.trees[b].root == self.trees[b].root);
                }
                match after.position(root, 0) {
                    Some(k) => {
                        assert(self.trees[k].root == root);
                        self.lemma_tree_at(k);
                    },
                    None => {
                        match self.position(root, 0) {
                            Some(k) => {
                                assert(after.trees[k].root == root);
                            },
                            None => {},
                        }
                    },
                }
            },
            None => {
                assert(after.trees == self.trees.push(tree));
                assert forall|a: int, b: int| 0 <= a < b < after.trees.len() implies (
                #[trigger] after.trees[a]).root != (#[trigger] after.trees[b]).root by {
                    if b == self.trees.len() {
                        assert(self.trees[a].root != tree.root);
                    }
                }
                assert(after.wf());
                match after.position(root, 0) {
                    Some(k) => {
                        if k < self.trees.len() {
                            assert(self.trees[k].root == root);
                            self.lemma_tree_at(k);
                        }
                    },
                    None => {
                        assert(after.trees[self.trees.len() as int].root != root);
                        match self.position(root, 0) {
                            Some(k) => {
                                assert(after.trees[k].root == root);
                            },
                            None => {},
                        }
                    },
                }
            },
        }
    }

    /// Dropping a tree keeps the forest well formed, leaves no tree of that
    /// root, and leaves the trees of other roots as they are.
    pub proof fn lemma_drop_tree(self, dropped: Seq<Seq<u8>>, root: Seq<Seq<u8>>)
        requires
            self.wf(),
        ensures
            self.drop_tree(dropped).wf(),
            self.drop_tree(dropped).tree(root) == if root == dropped {
                None
            } else {
                self.tree(root)
            },
    {
        let after = self.drop_tree(dropped);
        self.lemma_position(dropped, 0);
        self.lemma_position(root, 0);
        after.lemma_position(root, 0);
        match self.position(dropped, 0) {
            Some(i) => {
                assert(after.trees == self.trees.remove(i));
                assert forall|b: int| 0 <= b < after.trees.len() implies #[trigger] after.trees[b]
                    == self.trees[if b < i {
                    b
                } else {
                    b + 1
                }] by {}
                match after.position(root, 0) {
                    Some(k) => {
                        let a = if k < i {
                            k
                        } else {
                            k + 1
                        };
                        assert(self.trees[a].root == root);
                        self.lemma_tree_at(a);
                    },
                    None => {
                        match self.position(root, 0) {
                            Some(a) => {
                                if a != i {
                                    let b = if a < i {
                                        a
                                    } else {
                                        a - 1
                                    };
                                    assert(after.trees[b].root == root);
                                }
                            },
                            None => {},
                        }
                    },
                }
            },
            None => {},
        }
    }
}

impl<T> NodeView<T> {
    /// The names of the nodes that are passed on the way along `rel`, as
    /// far as the way leads.
    pub open spec fn names_along(self, rel: Seq<Seq<u8>>) -> Seq<Seq<u8>>
        decreases rel.len(),
    {
        if rel.len() == 0 {
            Seq::empty()
        } else {
            match Self::position(self.children, rel[0], 0) {
                Some(i) => seq![self.children[i].name.unwrap()] + self.children[i].names_along(
                    rel.drop_first(),
                ),
                None => Seq::empty(),
            }
        }
    }

    /// The way to a node passes nodes with the names of the path that was
    /// followed.
    pub proof fn lemma_names_along(self, rel: Seq<Seq<u8>>)
        requires
            self.find(rel) is Some,
        ensures
            self.names_along(rel) == rel,
            rel.len() > 0 ==> self.find(rel).unwrap().name == Some(rel.last()),
        decreases rel.len(),
    {
        if rel.len() > 0 {
            Self::lemma_position(self.children, rel[0], 0);
            let i = Self::position(self.children, rel[0], 0).unwrap();
            self.children[i].lemma_names_along(rel.drop_first());
            assert(rel =~= seq![rel[0]] + rel.drop_first());
            if rel.len() > 1 {
                assert(rel.drop_first().last() == rel.last());
            }
        }
    }

    /// Following one path and then another is following the two in a row.
    pub proof fn lemma_find_concat(self, first: Seq<Seq<u8>>, then: Seq<Seq<u8>>)
        ensures
            self.find(first + then) == match self.find(first) {
                Some(node) => node.find(then),
                None => None,
            },
        decreases first.len(),
    {
        if first.len() == 0 {
            assert(first + then =~= then);
        } else {
            let all = first + then;
            assert(all[0] == first[0]);
            assert(all.drop_first() =~= first.drop_first() + then);
            match Self::position(self.children, first[0], 0) {
                Some(i) => {
                    self.children[i].lemma_find_concat(first.drop_first(), then);
                },
                None => {},
            }
        }
    }

    /// A tree that holds a path holds every path above it.
    pub proof fn lemma_find_prefix(self, rel: Seq<Seq<u8>>, upper: Seq<Seq<u8>>)
        requires
            self.find(rel) is Some,
            extends(rel, upper),
        ensures
            self.find(upper) is Some,
        decreases rel.len(),
    {
        if upper.len() > 0 {
            lemma_extends_step(rel, upper);
            Self::lemma_position(self.children, rel[0], 0);
            let i = Self::position(self.children, rel[0], 0).unwrap();
            self.children[i].lemma_find_prefix(rel.drop_first(), upper.drop_first());
        }
    }
}

impl<T> TreeView<T> {
    /// The absolute path that is put together for the node reached along
    /// `rel`: the path of the root, and the names of the nodes on the way.
    pub open spec fn path_of(self, rel: Seq<Seq<u8>>) -> Seq<Seq<u8>> {
        self.root + self.node.names_along(rel)
    }

    /// For every node of a tree, the path that is put together from the
    /// root's path and the names on the way to the node is the path under
    /// which the tree holds the node.
    pub proof fn lemma_paths_are_consistent(self, path: Seq<Seq<u8>>)
        requires
            self.contains(path),
        ensures
            self.path_of(path.skip(self.root.len() as int)) == path,
    {
        let n = self.root.len() as int;
        self.node.lemma_names_along(path.skip(n));
        assert(path =~= path.subrange(0, n) + path.skip(n));
    }

    /// A path that was added is held by the tree under that very path, with
    /// the payload that was given; and what the tree held below that path
    /// before, it holds still.
    pub proof fn lemma_added_path_is_consistent(
        self,
        path: Seq<Seq<u8>>,
        info: T,
        is_dir: bool,
        fresh: T,
    )
        requires
            self.wf(),
            self.covers(path),
        ensures
            self.with_path(path, info, is_dir, fresh).entry(path) == Some(Entry { info, is_dir }),
            self.with_path(path, info, is_dir, fresh).path_of(path.skip(self.root.len() as int))
                == path,
            forall|q: Seq<Seq<u8>>|
                extends(q, path) && q != path ==> #[trigger] self.with_path(
                    path,
                    info,
                    is_dir,
                    fresh,
                ).entry(q) == self.entry(q),
            forall|q: Seq<Seq<u8>>|
                self.contains(q) ==> #[trigger] self.with_path(path, info, is_dir, fresh).contains(
                    q,
                ),
    {
        let after = self.with_path(path, info, is_dir, fresh);
        self.lemma_with_path(path, info, is_dir, fresh, path);
        after.lemma_paths_are_consistent(path);
        assert forall|q: Seq<Seq<u8>>| extends(q, path) && q != path implies #[trigger] after.entry(
            q,
        ) == self.entry(q) by {
            lemma_extends_chain(q, path, self.root);
            self.lemma_with_path(path, info, is_dir, fresh, q);
            if extends(path, q) {
                assert(q =~= path) by {
                    assert(q.subrange(0, path.len() as int) =~= q);
                    assert(path.subrange(0, q.len() as int) =~= path);
                }
            }
        }
        assert forall|q: Seq<Seq<u8>>| self.contains(q) implies #[trigger] after.contains(q) by {
            self.lemma_with_path(path, info, is_dir, fresh, q);
        }
    }

    /// A tree that holds a path holds every path from its root down to it.
    pub proof fn lemma_holds_ancestors(self, path: Seq<Seq<u8>>, upper: Seq<Seq<u8>>)
        requires
            self.contains(path),
            extends(path, upper),
            self.covers(upper),
        ensures
            self.contains(upper),
    {
        lemma_extends_below(path, upper, self.root);
        self.node.lemma_find_prefix(
            path.skip(self.root.len() as int),
            upper.skip(self.root.len() as int),
        );
    }
}

impl<T> ForestView<T> {
    /// What adding a path to a tree of a forest does: the forest stays well
    /// formed, the tree is there, what it records is said path by path, and
    /// the other trees stay as they are.
    pub proof fn lemma_with_path(
        self,
        root: Seq<Seq<u8>>,
        path: Seq<Seq<u8>>,
        info: T,
        is_dir: bool,
        fresh: T,
    )
        requires
            self.wf(),
            extends(path, root),
        ensures
            self.with_path(root, path, info, is_dir, fresh).wf(),
            self.with_path(root, path, info, is_dir, fresh).has_root(root),
            forall|other: Seq<Seq<u8>>|
                other != root ==> #[trigger] self.with_path(root, path, info, is_dir, fresh).tree(
                    other,
                ) == self.tree(other),
            forall|q: Seq<Seq<u8>>|
                extends(q, root) ==> #[trigger] self.with_path(
                    root,
                    path,
                    info,
                    is_dir,
                    fresh,
                ).entry(root, q) == entry_after_add(
                    self.tree_or_single(root, fresh).entry(q),
                    q,
                    path,
                    info,
                    is_dir,
                    fresh,
                ),
    {
        let base = self.tree_or_single(root, fresh);
        let grown = base.with_path(path, info, is_dir, fresh);
        let after = self.with_path(root, path, info, is_dir, fresh);
        self.lemma_position(root, 0);
        base.lemma_with_path(path, info, is_dir, fresh, Seq::empty());
        assert forall|other: Seq<Seq<u8>>| true implies #[trigger] after.tree(other) == if other
            == root {
            Some(grown)
        } else {
            self.tree(other)
        } by {
            self.lemma_put_tree(grown, other);
        }
        self.lemma_put_tree(grown, root);
        assert forall|q: Seq<Seq<u8>>| extends(q, root) implies #[trigger] after.entry(root, q)
            == entry_after_add(base.entry(q), q, path, info, is_dir, fresh) by {
            base.lemma_with_path(path, info, is_dir, fresh, q);
            assert(after.tree(root) == Some(grown));
        }
    }

    /// What removing a path below the root from a tree of a forest does:
    /// the forest stays well formed, the tree stays, what it records is said
    /// path by path, and the other trees stay as they are.
    pub proof fn lemma_without_path(self, root: Seq<Seq<u8>>, path: Seq<Seq<u8>>)
        requires
            self.wf(),
            self.has_root(root),
            extends(path, root),
            path.len() > root.len(),
        ensures
            self.without_path(root, path).wf(),
            self.without_path(root, path).has_root(root),
            forall|other: Seq<Seq<u8>>|
                other != root ==> #[trigger] self.without_path(root, path).tree(other)
                    == self.tree(other),
            forall|q: Seq<Seq<u8>>| #[trigger]
                self.without_path(root, path).entry(root, q) == entry_after_remove(
                    self.entry(root, q),
                    q,
                    path,
                ),
    {
        let tree = self.tree(root).unwrap();
        let cut = tree.without_path(path);
        let after = self.without_path(root, path);
        self.lemma_position(root, 0);
        tree.lemma_without_path(path, Seq::empty());
        assert forall|other: Seq<Seq<u8>>| true implies #[trigger] after.tree(other) == if other
            == root {
            Some(cut)
        } else {
            self.tree(other)
        } by {
            self.lemma_put_tree(cut, other);
        }
        self.lemma_put_tree(cut, root);
        assert forall|q: Seq<Seq<u8>>| true implies #[trigger] after.entry(root, q)
            == entry_after_remove(self.entry(root, q), q, path) by {
            tree.lemma_without_path(path, q);
            assert(after.tree(root) == Some(cut));
        }
    }
}

impl<T> NodeView<T> {
    /// What a node records about a path below one of its children is what
    /// the child records about the rest of the path.
    pub proof fn lemma_child_entry(self, k: int, rel: Seq<Seq<u8>>)
        requires
            self.wf(),
            0 <= k < self.children.len(),
        ensures
            self.find(seq![self.children[k].name.unwrap()] + rel) == self.children[k].find(rel),
            self.entry(seq![self.children[k].name.unwrap()] + rel) == self.children[k].entry(rel),
    {
        let name = self.children[k].name.unwrap();
        let full = seq![name] + rel;
        Self::lemma_position_unique(self.children, name, k);
        assert(full[0] == name);
        assert(full.drop_first() =~= rel);
    }

    /// After a child was replaced by a node of the same name, the node
    /// records below that name what the new child records, and all else as
    /// before.
    pub proof fn lemma_child_replaced(self, k: int, child: Self, info: T, q: Seq<Seq<u8>>)
        requires
            self.wf(),
            child.wf(),
            0 <= k < self.children.len(),
            child.name == self.children[k].name,
        ensures
            (NodeView { info, children: self.children.update(k, child), ..self }).wf(),
            (NodeView { info, children: self.children.update(k, child), ..self }).entry(q) == if q.len()
                == 0 {
                Some(Entry { info, is_dir: self.is_dir })
            } else if q[0] == child.name.unwrap() {
                child.entry(q.drop_first())
            } else {
                self.entry(q)
            },
    {
        let after = NodeView { info, children: self.children.update(k, child), ..self };
        assert forall|i: int| 0 <= i < after.children.len() implies (#[trigger] after.children[i]).name
            == self.children[i].name && after.children[i].wf() by {}
        if q.len() > 0 {
            Self::lemma_position_update(self.children, k, child, q[0]);
            Self::lemma_position(self.children, q[0], 0);
            Self::lemma_position_unique(self.children, child.name.unwrap(), k);
        }
    }

    /// After a child was removed, the node records nothing below that
    /// child's name, and all else as before.
    pub proof fn lemma_child_removed(self, k: int, info: T, q: Seq<Seq<u8>>)
        requires
            self.wf(),
            0 <= k < self.children.len(),
        ensures
            (NodeView { info, children: self.children.remove(k), ..self }).wf(),
            (NodeView { info, children: self.children.remove(k), ..self }).entry(q) == if q.len()
                == 0 {
                Some(Entry { info, is_dir: self.is_dir })
            } else if q[0] == self.children[k].name.unwrap() {
                None
            } else {
                self.entry(q)
            },
    {
        let after = NodeView { info, children: self.children.remove(k), ..self };
        assert forall|i: int| 0 <= i < after.children.len() implies #[trigger] after.children[i]
            == self.children[if i < k {
            i
        } else {
            i + 1
        }] by {}
        if q.len() > 0 {
            Self::lemma_position_remove(self.children, k, q[0]);
            Self::lemma_position(self.children, q[0], 0);
        }
    }
}

impl<T> TreeView<T> {
    /// Adding a path again changes nothing but the payload of the path and
    /// whether it is a directory: the tree holds the same paths as after
    /// the first time, what lies below the path too, and records what it
    /// would record if the path had been added the second time only.
    pub proof fn lemma_add_again(
        self,
        path: Seq<Seq<u8>>,
        first: Entry<T>,
        second: Entry<T>,
        fresh: T,
        q: Seq<Seq<u8>>,
    )
        requires
            self.wf(),
            self.covers(path),
        ensures
            self.with_path(path, first.info, first.is_dir, fresh).with_path(
                path,
                second.info,
                second.is_dir,
                fresh,
            ).entry(q) == self.with_path(path, second.info, second.is_dir, fresh).entry(q),
    {
        let once = self.with_path(path, first.info, first.is_dir, fresh);
        self.lemma_with_path(path, first.info, first.is_dir, fresh, q);
        self.lemma_with_path(path, second.info, second.is_dir, fresh, q);
        once.lemma_with_path(path, second.info, second.is_dir, fresh, q);
    }
}

} // verus!
