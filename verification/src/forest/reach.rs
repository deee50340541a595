//! What a walk does at one node of a tree, whatever it does elsewhere:
//! the state in which the visitor comes to the node, what the tree records
//! about the node afterwards, and what the rest of the walk keeps.

use crate::forest::model::{Entry, NodeView};
use crate::forest::walk::{
    child_paths, lemma_sweep_wf, lemma_walk_keeps, lemma_walk_wf, name_or_empty, new_entries,
    sweep, walk, Directive, NewEntry,
};
use crate::forest::{DfsVisitor, RecursiveBehaviour};
use crate::path::extends;
use vstd::prelude::*;

verus! {

/// Whether the walk goes on to the children after a visit with this
/// outcome.
pub open spec fn goes_below<E>(outcome: Result<Directive, E>) -> bool {
    outcome matches Ok(directive) && (directive is Continue || directive is AddAndContinue)
}

/// The visitor as it is when the walk of `children`, which started at the
/// index `from` with the visitor `model`, comes to the child `k`; `None`
/// where an error ends the walk before.
pub open spec fn before<T, V: DfsVisitor<T>>(
    children: Seq<NodeView<T>>,
    from: int,
    k: int,
    path: Seq<Seq<u8>>,
    model: V::V,
    fresh: T,
) -> Option<V::V>
    decreases k - from,
{
    if from >= k {
        Some(model)
    } else {
        let w = walk::<T, V>(
            children[from],
            path.push(name_or_empty(children[from].name)),
            model,
            fresh,
        );
        match w.result {
            Err(_) => None,
            Ok(_) => before::<T, V>(children, from + 1, k, path, w.model, fresh),
        }
    }
}

/// The visitor as it is when the walk of the subtree `node` comes to the
/// node that lies `rel` below it; `None` where the walk does not come
/// there: the subtree has no such node, the walk does not go below one of
/// the nodes above it, or an error ends the walk before.
pub open spec fn reach<T, V: DfsVisitor<T>>(
    node: NodeView<T>,
    path: Seq<Seq<u8>>,
    model: V::V,
    fresh: T,
    rel: Seq<Seq<u8>>,
) -> Option<V::V>
    decreases rel.len(),
{
    if rel.len() == 0 {
        Some(model)
    } else {
        let step = V::step(model, path, child_paths(node, path), node.info, node.is_dir);
        match NodeView::position(node.children, rel[0], 0) {
            Some(k) if goes_below(step.outcome) => match before::<T, V>(
                node.children,
                0,
                k,
                path,
                step.model,
                fresh,
            ) {
                Some(m) => reach::<T, V>(
                    node.children[k],
                    path.push(rel[0]),
                    m,
                    fresh,
                    rel.drop_first(),
                ),
                None => None,
            },
            _ => None,
        }
    }
}

/// Whether each of the entries `new`, wanted below the node at `path`, has
/// a name that none of the children `children` of that node has.
pub open spec fn beside(new: Seq<NewEntry>, path: Seq<Seq<u8>>, children: Seq<Seq<Seq<u8>>>) -> bool {
    forall|j: int|
        0 <= j < new.len() && (#[trigger] new[j]).path.len() > 0 ==> !children.contains(
            path.push(new[j].path.last()),
        )
}

/// Whether the visitor asks only for entries that the node it is shown
/// has not got.
pub open spec fn adds_beside<T, V: DfsVisitor<T>>() -> bool {
    forall|m: V::V, p: Seq<Seq<u8>>, c: Seq<Seq<Seq<u8>>>, i: T, d: bool|
        (#[trigger] V::step(m, p, c, i, d)).outcome matches Ok(directive) ==> beside(
            new_entries(directive),
            p,
            c,
        )
}

/// What every visit keeps of a visitor holds of it when the walk of
/// children comes to one of them.
pub proof fn lemma_before_keeps<T, V: DfsVisitor<T>>(
    children: Seq<NodeView<T>>,
    from: int,
    k: int,
    path: Seq<Seq<u8>>,
    model: V::V,
    fresh: T,
    kept: spec_fn(V::V) -> bool,
)
    requires
        0 <= from,
        kept(model),
        forall|m: V::V, p: Seq<Seq<u8>>, c: Seq<Seq<Seq<u8>>>, i: T, d: bool|
            kept(m) ==> kept(#[trigger] V::step(m, p, c, i, d).model),
    ensures
        before::<T, V>(children, from, k, path, model, fresh) matches Some(m) ==> kept(m),
    decreases k - from,
{
    if from < k {
        let at = path.push(name_or_empty(children[from].name));
        let w = walk::<T, V>(children[from], at, model, fresh);
        lemma_walk_keeps::<T, V>(children[from], at, model, fresh, kept);
        if w.result is Ok {
            lemma_before_keeps::<T, V>(children, from + 1, k, path, w.model, fresh, kept);
        }
    }
}

/// What every visit keeps of a visitor holds of it when the walk comes to
/// a node.
pub proof fn lemma_reach_keeps<T, V: DfsVisitor<T>>(
    node: NodeView<T>,
    path: Seq<Seq<u8>>,
    model: V::V,
    fresh: T,
    rel: Seq<Seq<u8>>,
    kept: spec_fn(V::V) -> bool,
)
    requires
        kept(model),
        forall|m: V::V, p: Seq<Seq<u8>>, c: Seq<Seq<Seq<u8>>>, i: T, d: bool|
            kept(m) ==> kept(#[trigger] V::step(m, p, c, i, d).model),
    ensures
        reach::<T, V>(node, path, model, fresh, rel) matches Some(m) ==> kept(m),
    decreases rel.len(),
{
    if rel.len() > 0 && reach::<T, V>(node, path, model, fresh, rel) is Some {
        let step = V::step(model, path, child_paths(node, path), node.info, node.is_dir);
        let k = NodeView::position(node.children, rel[0], 0).unwrap();
        lemma_before_keeps::<T, V>(node.children, 0, k, path, step.model, fresh, kept);
        let m = before::<T, V>(node.children, 0, k, path, step.model, fresh).unwrap();
        lemma_reach_keeps::<T, V>(
            node.children[k],
            path.push(rel[0]),
            m,
            fresh,
            rel.drop_first(),
            kept,
        );
    }
}

/// Whether the path `p` is clear of the path `off`: `off` does not start
/// with it, so that it is neither `off` nor above it; and, where `strict`,
/// it does not lie below `off` either.
pub open spec fn clear_of(p: Seq<Seq<u8>>, off: Seq<Seq<u8>>, strict: bool) -> bool {
    !extends(off, p) && (strict ==> !extends(p, off))
}

/// A path below one that is clear of `off` is clear of it.
pub proof fn lemma_clear_below(path: Seq<Seq<u8>>, name: Seq<u8>, off: Seq<Seq<u8>>, strict: bool)
    requires
        clear_of(path, off, strict),
    ensures
        clear_of(path.push(name), off, strict),
{
    let longer = path.push(name);
    if extends(off, longer) {
        assert(off.subrange(0, path.len() as int) =~= off.subrange(0, longer.len() as int).subrange(
            0,
            path.len() as int,
        ));
        assert(longer.subrange(0, path.len() as int) =~= path);
    }
    if strict && extends(longer, off) {
        if off.len() <= path.len() {
            assert(path.subrange(0, off.len() as int) =~= longer.subrange(0, off.len() as int));
        } else {
            assert(longer.subrange(0, off.len() as int) =~= longer);
            assert(off.subrange(0, path.len() as int) =~= path);
        }
    }
}

/// Of two paths that go on from one path with different names, one is
/// clear of the other and of all below it.
pub proof fn lemma_clear_beside(
    path: Seq<Seq<u8>>,
    name: Seq<u8>,
    rel: Seq<Seq<u8>>,
    strict: bool,
)
    requires
        rel.len() > 0,
        rel[0] != name,
    ensures
        clear_of(path.push(name), path + rel, strict),
{
    let other = path.push(name);
    let off = path + rel;
    if extends(off, other) {
        assert(off.subrange(0, other.len() as int)[path.len() as int] == rel[0]);
    }
    if extends(other, off) {
        assert(other.subrange(0, off.len() as int)[path.len() as int] == name);
    }
}

/// What the visits at all paths that are clear of `off` keep of a
/// visitor, the walk of a subtree whose path is clear of `off` keeps too.
pub proof fn lemma_walk_keeps_off<T, V: DfsVisitor<T>>(
    node: NodeView<T>,
    path: Seq<Seq<u8>>,
    model: V::V,
    fresh: T,
    off: Seq<Seq<u8>>,
    strict: bool,
    kept: spec_fn(V::V) -> bool,
)
    requires
        clear_of(path, off, strict),
        kept(model),
        forall|m: V::V, p: Seq<Seq<u8>>, c: Seq<Seq<Seq<u8>>>, i: T, d: bool|
            clear_of(p, off, strict) && kept(m) ==> kept(#[trigger] V::step(m, p, c, i, d).model),
    ensures
        kept(walk::<T, V>(node, path, model, fresh).model),
    decreases node, 0nat,
{
    let step = V::step(model, path, child_paths(node, path), node.info, node.is_dir);
    if goes_below(step.outcome) {
        assert forall|j: int| 0 <= j < node.children.len() implies clear_of(
            path.push(name_or_empty(#[trigger] node.children[j].name)),
            off,
            strict,
        ) by {
            lemma_clear_below(path, name_or_empty(node.children[j].name), off, strict);
        }
        lemma_sweep_keeps_off::<T, V>(node.children, 0, path, step.model, fresh, off, strict, kept);
    }
}

/// What the visits at all paths that are clear of `off` keep of a
/// visitor, the walk of children whose paths are clear of `off` keeps too.
pub proof fn lemma_sweep_keeps_off<T, V: DfsVisitor<T>>(
    children: Seq<NodeView<T>>,
    from: int,
    path: Seq<Seq<u8>>,
    model: V::V,
    fresh: T,
    off: Seq<Seq<u8>>,
    strict: bool,
    kept: spec_fn(V::V) -> bool,
)
    requires
        0 <= from,
        forall|j: int|
            from <= j < children.len() ==> clear_of(
                path.push(name_or_empty(#[trigger] children[j].name)),
                off,
                strict,
            ),
        kept(model),
        forall|m: V::V, p: Seq<Seq<u8>>, c: Seq<Seq<Seq<u8>>>, i: T, d: bool|
            clear_of(p, off, strict) && kept(m) ==> kept(#[trigger] V::step(m, p, c, i, d).model),
    ensures
        kept(sweep::<T, V>(children, from, path, model, fresh).model),
    decreases children, children.len() - from,
{
    if from < children.len() {
        let here = children[from];
        let at = path.push(name_or_empty(here.name));
        let w = walk::<T, V>(here, at, model, fresh);
        lemma_walk_keeps_off::<T, V>(here, at, model, fresh, off, strict, kept);
        if w.result is Ok {
            lemma_sweep_keeps_off::<T, V>(
                children,
                from + 1,
                path,
                w.model,
                fresh,
                off,
                strict,
                kept,
            );
        }
    }
}

/// What the walk of a subtree makes of the subtree's root: the root is to
/// be deleted if and only if the visitor says so, and else keeps its kind
/// and holds the payload that the visitor left.
pub proof fn lemma_walk_root<T, V: DfsVisitor<T>>(
    node: NodeView<T>,
    path: Seq<Seq<u8>>,
    model: V::V,
    fresh: T,
)
    requires
        node.wf(),
    ensures
        ({
            let step = V::step(model, path, child_paths(node, path), node.info, node.is_dir);
            let w = walk::<T, V>(node, path, model, fresh);
            &&& (w.result matches Ok(RecursiveBehaviour::Delete)) == (step.outcome matches Ok(
                Directive::Delete,
            ))
            &&& w.node.info == step.info
            &&& w.node.is_dir == node.is_dir
            &&& w.node.name == node.name
        }),
{
    let step = V::step(model, path, child_paths(node, path), node.info, node.is_dir);
    let seen = NodeView { info: step.info, ..node };
    assert(seen.wf());
    match step.outcome {
        Err(e) => {},
        Ok(Directive::Stop) => {},
        Ok(Directive::Delete) => {},
        Ok(Directive::AddAndStop(new)) => {
            seen.lemma_with_new(new, fresh);
        },
        Ok(directive) => {
            lemma_sweep_wf::<T, V>(node.children, 0, path, step.model, fresh);
            let below = sweep::<T, V>(node.children, 0, path, step.model, fresh);
            let swept = NodeView { children: below.children, ..seen };
            assert(swept.wf());
            swept.lemma_with_new(new_entries(directive), fresh);
        },
    }
}

/// A node in front of others that has another name moves the place of
/// that name by one.
pub proof fn lemma_position_behind<T>(first: NodeView<T>, rest: Seq<NodeView<T>>, name: Seq<u8>)
    requires
        first.name != Some(name),
    ensures
        NodeView::position(seq![first] + rest, name, 0) == match NodeView::position(rest, name, 0) {
            Some(j) => Some(j + 1),
            None => None,
        },
{
    let all = seq![first] + rest;
    NodeView::lemma_position(all, name, 0);
    NodeView::lemma_position(rest, name, 0);
    assert(all[0] == first);
    assert forall|j: int| 0 <= j < rest.len() implies #[trigger] all[j + 1] == rest[j] by {}
    match NodeView::position(rest, name, 0) {
        Some(j) => {
            assert(all[j + 1].name == Some(name));
            let i = NodeView::position(all, name, 0).unwrap();
            if i < j + 1 {
                assert(i >= 1);
                assert(all[(i - 1) + 1] == rest[i - 1]);
            }
        },
        None => {
            if NodeView::position(all, name, 0) is Some {
                let i = NodeView::position(all, name, 0).unwrap();
                assert(all[(i - 1) + 1] == rest[i - 1]);
            }
        },
    }
}

/// What the visits at all paths that are clear of `off` keep of a visitor
/// holds of it when the walk of children whose paths are clear of `off`
/// comes to one of them.
pub proof fn lemma_before_keeps_off<T, V: DfsVisitor<T>>(
    children: Seq<NodeView<T>>,
    from: int,
    k: int,
    path: Seq<Seq<u8>>,
    model: V::V,
    fresh: T,
    off: Seq<Seq<u8>>,
    strict: bool,
    kept: spec_fn(V::V) -> bool,
)
    requires
        0 <= from,
        k <= children.len(),
        forall|j: int|
            from <= j < k ==> clear_of(
                path.push(name_or_empty(#[trigger] children[j].name)),
                off,
                strict,
            ),
        kept(model),
        forall|m: V::V, p: Seq<Seq<u8>>, c: Seq<Seq<Seq<u8>>>, i: T, d: bool|
            clear_of(p, off, strict) && kept(m) ==> kept(#[trigger] V::step(m, p, c, i, d).model),
    ensures
        before::<T, V>(children, from, k, path, model, fresh) matches Some(m) ==> kept(m),
    decreases k - from,
{
    if from < k {
        let at = path.push(name_or_empty(children[from].name));
        let w = walk::<T, V>(children[from], at, model, fresh);
        lemma_walk_keeps_off::<T, V>(children[from], at, model, fresh, off, strict, kept);
        if w.result is Ok {
            lemma_before_keeps_off::<T, V>(
                children,
                from + 1,
                k,
                path,
                w.model,
                fresh,
                off,
                strict,
                kept,
            );
        }
    }
}

/// A walk of children that ends without an error comes to each of them,
/// and the walk of each ends without an error.
pub proof fn lemma_sweep_comes_to_all<T, V: DfsVisitor<T>>(
    children: Seq<NodeView<T>>,
    from: int,
    k: int,
    path: Seq<Seq<u8>>,
    model: V::V,
    fresh: T,
)
    requires
        0 <= from <= k < children.len(),
        sweep::<T, V>(children, from, path, model, fresh).error is None,
    ensures
        before::<T, V>(children, from, k, path, model, fresh) matches Some(m) && walk::<T, V>(
            children[k],
            path.push(name_or_empty(children[k].name)),
            m,
            fresh,
        ).result is Ok,
    decreases k - from,
{
    if from < k {
        let at = path.push(name_or_empty(children[from].name));
        let w = walk::<T, V>(children[from], at, model, fresh);
        lemma_sweep_comes_to_all::<T, V>(children, from + 1, k, path, w.model, fresh);
    }
}

/// What a walk of children makes of the child `k`, where it comes to that
/// child: a child whose own walk ends in the word to delete it is no
/// longer among the children, and any other is there as its walk left it.
/// The visitor is afterwards what the walk of the children behind it
/// makes of it, or what the walk of the child left where that ended in an
/// error.
pub proof fn lemma_sweep_child<T, V: DfsVisitor<T>>(
    children: Seq<NodeView<T>>,
    from: int,
    k: int,
    path: Seq<Seq<u8>>,
    model: V::V,
    fresh: T,
)
    requires
        0 <= from <= k < children.len(),
        forall|i: int| 0 <= i < children.len() ==> (#[trigger] children[i]).name is Some && children[i].wf(),
        forall|i: int, j: int|
            0 <= i < j < children.len() ==> (#[trigger] children[i]).name != (
            #[trigger] children[j]).name,
        before::<T, V>(children, from, k, path, model, fresh) is Some,
    ensures
        ({
            let m = before::<T, V>(children, from, k, path, model, fresh).unwrap();
            let name = children[k].name.unwrap();
            let one = walk::<T, V>(children[k], path.push(name), m, fresh);
            let all = sweep::<T, V>(children, from, path, model, fresh);
            &&& all.model == if one.result is Err {
                one.model
            } else {
                sweep::<T, V>(children, k + 1, path, one.model, fresh).model
            }
            &&& match NodeView::position(all.children, name, 0) {
                Some(j) => !(one.result matches Ok(RecursiveBehaviour::Delete)) && 0 <= j
                    < all.children.len() && all.children[j] == one.node,
                None => one.result matches Ok(RecursiveBehaviour::Delete),
            }
        }),
    decreases k - from,
{
    let name = children[k].name.unwrap();
    let here = children[from];
    let at = path.push(name_or_empty(here.name));
    let w = walk::<T, V>(here, at, model, fresh);
    let all = sweep::<T, V>(children, from, path, model, fresh);
    let rest = sweep::<T, V>(children, from + 1, path, w.model, fresh);
    lemma_walk_wf::<T, V>(here, at, model, fresh);
    lemma_sweep_wf::<T, V>(children, from + 1, path, w.model, fresh);
    if from == k {
        match w.result {
            Err(e) => {
                assert(all.children[0] == w.node);
            },
            Ok(RecursiveBehaviour::Delete) => {
                NodeView::lemma_position(rest.children, name, 0);
            },
            Ok(RecursiveBehaviour::Nothing) => {
                assert(all.children[0] == w.node);
            },
        }
    } else {
        lemma_sweep_child::<T, V>(children, from + 1, k, path, w.model, fresh);
        match w.result {
            Err(e) => {},
            Ok(RecursiveBehaviour::Delete) => {},
            Ok(RecursiveBehaviour::Nothing) => {
                lemma_position_behind(w.node, rest.children, name);
                assert forall|j: int| 0 <= j < rest.children.len() implies all.children[j + 1]
                    == #[trigger] rest.children[j] by {}
            },
        }
    }
}

impl<T> NodeView<T> {
    /// New children of other names leave what the node holds at the paths
    /// that start with the name `q[0]`.
    pub proof fn lemma_with_new_beside(self, new: Seq<NewEntry>, fresh: T, q: Seq<Seq<u8>>)
        requires
            self.wf(),
            q.len() > 0,
            forall|j: int|
                0 <= j < new.len() && (#[trigger] new[j]).path.len() > 0 ==> new[j].path.last()
                    != q[0],
        ensures
            self.with_new(new, fresh).find(q) == self.find(q),
        decreases new.len(),
    {
        if new.len() > 0 {
            let before = self.with_new(new.drop_last(), fresh);
            self.lemma_with_new(new.drop_last(), fresh);
            assert forall|j: int|
                0 <= j < new.drop_last().len() && (#[trigger] new.drop_last()[j]).path.len()
                    > 0 implies new.drop_last()[j].path.last() != q[0] by {
                assert(new.drop_last()[j] == new[j]);
            }
            self.lemma_with_new_beside(new.drop_last(), fresh, q);
            if new.last().path.len() > 0 {
                let child = Self::leaf(Some(new.last().path.last()), fresh, new.last().is_dir);
                before.lemma_put_child(child, q);
            }
        }
    }
}

/// What a tree holds, after a walk, at a node to which the walk came,
/// whatever the walk did elsewhere: what the walk of that node's own
/// subtree left, and nothing where that walk ended in the word to delete
/// the node.
///
/// The subtree is that below `node`, which has the path `path`; the node
/// in question lies `rel` below it, and `rel` has a component. The visitor
/// asks only for entries that the node it is shown has not got.
pub proof fn lemma_reached_walk<T, V: DfsVisitor<T>>(
    node: NodeView<T>,
    path: Seq<Seq<u8>>,
    model: V::V,
    fresh: T,
    rel: Seq<Seq<u8>>,
)
    requires
        node.wf(),
        adds_beside::<T, V>(),
        rel.len() > 0,
        reach::<T, V>(node, path, model, fresh, rel) is Some,
    ensures
        node.find(rel) is Some,
        node.find(rel).unwrap().wf(),
        ({
            let m = reach::<T, V>(node, path, model, fresh, rel).unwrap();
            let one = walk::<T, V>(node.find(rel).unwrap(), path + rel, m, fresh);
            let w = walk::<T, V>(node, path, model, fresh);
            &&& w.node.find(rel) == if one.result matches Ok(RecursiveBehaviour::Delete) {
                None
            } else {
                Some(one.node)
            }
            &&& w.result is Ok ==> one.result is Ok
        }),
    decreases rel.len(),
{
    let step = V::step(model, path, child_paths(node, path), node.info, node.is_dir);
    let seen = NodeView { info: step.info, ..node };
    let k = NodeView::position(node.children, rel[0], 0).unwrap();
    NodeView::lemma_position(node.children, rel[0], 0);
    let child = node.children[k];
    let at = path.push(rel[0]);
    let rest = rel.drop_first();
    let m = before::<T, V>(node.children, 0, k, path, step.model, fresh).unwrap();
    let one = walk::<T, V>(child, at, m, fresh);
    let below = sweep::<T, V>(node.children, 0, path, step.model, fresh);
    let swept = NodeView { children: below.children, ..seen };
    let w = walk::<T, V>(node, path, model, fresh);
    lemma_sweep_child::<T, V>(node.children, 0, k, path, step.model, fresh);
    lemma_sweep_wf::<T, V>(node.children, 0, path, step.model, fresh);
    lemma_walk_root::<T, V>(child, at, m, fresh);
    if w.result is Ok {
        lemma_sweep_comes_to_all::<T, V>(node.children, 0, k, path, step.model, fresh);
    }
    assert(at + rest =~= path + rel);
    assert(swept.wf());
    // What the walk of the children left at the path.
    let left = if one.result matches Ok(RecursiveBehaviour::Delete) {
        None
    } else {
        one.node.find(rest)
    };
    assert(swept.find(rel) == left);
    // New children have other names.
    let directive = step.outcome->Ok_0;
    let new = new_entries(directive);
    assert(beside(new, path, child_paths(node, path)));
    assert(child_paths(node, path)[k] == at);
    assert forall|j: int| 0 <= j < new.len() && (#[trigger] new[j]).path.len() > 0 implies new[j].path.last()
        != rel[0] by {
        assert(!child_paths(node, path).contains(path.push(new[j].path.last())));
    }
    swept.lemma_with_new_beside(new, fresh, rel);
    assert(w.node.find(rel) == left);
    assert(node.find(rel) == child.find(rest));
    if rest.len() > 0 {
        lemma_reached_walk::<T, V>(child, at, m, fresh, rest);
    }
}

/// What a tree records, after a walk, about a node to which the walk
/// came, whatever the walk did elsewhere: nothing where the visitor said
/// to delete the node, and else the node's kind and the payload that the
/// visitor left in it.
///
/// The subtree is that below `node`, which has the path `path`; the node
/// in question lies `rel` below it, and `rel` has a component. The visitor
/// asks only for entries that the node it is shown has not got.
pub proof fn lemma_reached_entry<T, V: DfsVisitor<T>>(
    node: NodeView<T>,
    path: Seq<Seq<u8>>,
    model: V::V,
    fresh: T,
    rel: Seq<Seq<u8>>,
)
    requires
        node.wf(),
        adds_beside::<T, V>(),
        rel.len() > 0,
        reach::<T, V>(node, path, model, fresh, rel) is Some,
    ensures
        node.find(rel) is Some,
        ({
            let m = reach::<T, V>(node, path, model, fresh, rel).unwrap();
            let target = node.find(rel).unwrap();
            let visit = V::step(
                m,
                path + rel,
                child_paths(target, path + rel),
                target.info,
                target.is_dir,
            );
            let w = walk::<T, V>(node, path, model, fresh);
            w.node.entry(rel) == if visit.outcome matches Ok(Directive::Delete) {
                None
            } else {
                Some(Entry { info: visit.info, is_dir: target.is_dir })
            }
        }),
{
    lemma_reached_walk::<T, V>(node, path, model, fresh, rel);
    let m = reach::<T, V>(node, path, model, fresh, rel).unwrap();
    lemma_walk_root::<T, V>(node.find(rel).unwrap(), path + rel, m, fresh);
}

/// What the visits at all paths that are clear of the path of a node
/// keep of a visitor, the walk keeps from the visit of that node on: what
/// holds of the visitor after that visit holds of it when the walk is
/// over. Where the paths below the node are not taken for clear of it,
/// this is said of a visit after which the walk does not go below.
///
/// The subtree is that below `node`, which has the path `path`; the node
/// in question lies `rel` below it.
pub proof fn lemma_reached_keeps<T, V: DfsVisitor<T>>(
    node: NodeView<T>,
    path: Seq<Seq<u8>>,
    model: V::V,
    fresh: T,
    rel: Seq<Seq<u8>>,
    strict: bool,
    kept: spec_fn(V::V) -> bool,
)
    requires
        node.wf(),
        reach::<T, V>(node, path, model, fresh, rel) is Some,
        ({
            let m = reach::<T, V>(node, path, model, fresh, rel).unwrap();
            let target = node.find(rel).unwrap();
            let visit = V::step(
                m,
                path + rel,
                child_paths(target, path + rel),
                target.info,
                target.is_dir,
            );
            kept(visit.model) && (strict ==> !goes_below(visit.outcome))
        }),
        forall|m: V::V, p: Seq<Seq<u8>>, c: Seq<Seq<Seq<u8>>>, i: T, d: bool|
            clear_of(p, path + rel, strict) && kept(m) ==> kept(
                #[trigger] V::step(m, p, c, i, d).model,
            ),
    ensures
        kept(walk::<T, V>(node, path, model, fresh).model),
    decreases rel.len(),
{
    let off = path + rel;
    let step = V::step(model, path, child_paths(node, path), node.info, node.is_dir);
    if rel.len() == 0 {
        assert(off =~= path);
        if goes_below(step.outcome) {
            assert forall|j: int| 0 <= j < node.children.len() implies clear_of(
                path.push(name_or_empty(#[trigger] node.children[j].name)),
                off,
                strict,
            ) by {}
            lemma_sweep_keeps_off::<T, V>(
                node.children,
                0,
                path,
                step.model,
                fresh,
                off,
                strict,
                kept,
            );
        }
    } else {
        let k = NodeView::position(node.children, rel[0], 0).unwrap();
        NodeView::lemma_position(node.children, rel[0], 0);
        let child = node.children[k];
        let at = path.push(rel[0]);
        let rest = rel.drop_first();
        let m = before::<T, V>(node.children, 0, k, path, step.model, fresh).unwrap();
        let one = walk::<T, V>(child, at, m, fresh);
        lemma_sweep_child::<T, V>(node.children, 0, k, path, step.model, fresh);
        assert(at + rest =~= off);
        lemma_reached_keeps::<T, V>(child, at, m, fresh, rest, strict, kept);
        if one.result is Ok {
            assert forall|j: int| k + 1 <= j < node.children.len() implies clear_of(
                path.push(name_or_empty(#[trigger] node.children[j].name)),
                off,
                strict,
            ) by {
                assert(node.children[j].name != node.children[k].name);
                lemma_clear_beside(path, name_or_empty(node.children[j].name), rel, strict);
            }
            lemma_sweep_keeps_off::<T, V>(
                node.children,
                k + 1,
                path,
                one.model,
                fresh,
                off,
                strict,
                kept,
            );
        }
    }
}

/// What the visits at all paths that are clear of a path right below a
/// node, at which the node has no child, keep of a visitor, the walk keeps
/// from the visit of that node on.
///
/// The subtree is that below `node`, which has the path `path`; the node
/// in question lies `rel` below it, and has no child called `name`.
pub proof fn lemma_reached_keeps_beside<T, V: DfsVisitor<T>>(
    node: NodeView<T>,
    path: Seq<Seq<u8>>,
    model: V::V,
    fresh: T,
    rel: Seq<Seq<u8>>,
    name: Seq<u8>,
    kept: spec_fn(V::V) -> bool,
)
    requires
        node.wf(),
        reach::<T, V>(node, path, model, fresh, rel) is Some,
        node.find(rel) matches Some(target) && NodeView::position(target.children, name, 0) is None,
        ({
            let m = reach::<T, V>(node, path, model, fresh, rel).unwrap();
            let target = node.find(rel).unwrap();
            kept(
                V::step(
                    m,
                    path + rel,
                    child_paths(target, path + rel),
                    target.info,
                    target.is_dir,
                ).model,
            )
        }),
        forall|m: V::V, p: Seq<Seq<u8>>, c: Seq<Seq<Seq<u8>>>, i: T, d: bool|
            clear_of(p, (path + rel).push(name), true) && kept(m) ==> kept(
                #[trigger] V::step(m, p, c, i, d).model,
            ),
    ensures
        kept(walk::<T, V>(node, path, model, fresh).model),
    decreases rel.len(),
{
    let off = (path + rel).push(name);
    let step = V::step(model, path, child_paths(node, path), node.info, node.is_dir);
    if rel.len() == 0 {
        assert(path + rel =~= path);
        if goes_below(step.outcome) {
            NodeView::lemma_position(node.children, name, 0);
            assert forall|j: int| 0 <= j < node.children.len() implies clear_of(
                path.push(name_or_empty(#[trigger] node.children[j].name)),
                off,
                true,
            ) by {
                lemma_clear_beside(path, name_or_empty(node.children[j].name), seq![name], true);
                assert(path + seq![name] =~= off);
            }
            lemma_sweep_keeps_off::<T, V>(
                node.children,
                0,
                path,
                step.model,
                fresh,
                off,
                true,
                kept,
            );
        }
    } else {
        let k = NodeView::position(node.children, rel[0], 0).unwrap();
        NodeView::lemma_position(node.children, rel[0], 0);
        let child = node.children[k];
        let at = path.push(rel[0]);
        let rest = rel.drop_first();
        let m = before::<T, V>(node.children, 0, k, path, step.model, fresh).unwrap();
        let one = walk::<T, V>(child, at, m, fresh);
        lemma_sweep_child::<T, V>(node.children, 0, k, path, step.model, fresh);
        assert(at + rest =~= path + rel);
        lemma_reached_keeps_beside::<T, V>(child, at, m, fresh, rest, name, kept);
        if one.result is Ok {
            assert forall|j: int| k + 1 <= j < node.children.len() implies clear_of(
                path.push(name_or_empty(#[trigger] node.children[j].name)),
                off,
                true,
            ) by {
                assert(node.children[j].name != node.children[k].name);
                lemma_clear_beside(
                    path,
                    name_or_empty(node.children[j].name),
                    rel.push(name),
                    true,
                );
                assert(path + rel.push(name) =~= off);
            }
            lemma_sweep_keeps_off::<T, V>(
                node.children,
                k + 1,
                path,
                one.model,
                fresh,
                off,
                true,
                kept,
            );
        }
    }
}

impl<T> NodeView<T> {
    /// Of new children that are wanted right below one directory, the one
    /// whose path no other has is held afterwards as it was wanted.
    pub proof fn lemma_new_child_as_wanted(
        self,
        new: Seq<NewEntry>,
        fresh: T,
        dir: Seq<Seq<u8>>,
        k: int,
    )
        requires
            self.wf(),
            0 <= k < new.len(),
            forall|j: int|
                0 <= j < new.len() ==> (#[trigger] new[j]).path.len() > 0 && new[j].path.drop_last()
                    == dir,
            forall|j: int| 0 <= j < new.len() && j != k ==> (#[trigger] new[j]).path != new[k].path,
        ensures
            self.with_new(new, fresh).entry(seq![new[k].path.last()]) == Some(
                Entry { info: fresh, is_dir: new[k].is_dir },
            ),
        decreases new.len(),
    {
        let before = self.with_new(new.drop_last(), fresh);
        let name = new[k].path.last();
        let last = new.last();
        let q = seq![name];
        assert(q[0] == name);
        assert(q.drop_first() =~= Seq::<Seq<u8>>::empty());
        self.lemma_with_new(new.drop_last(), fresh);
        let child = Self::leaf(Some(last.path.last()), fresh, last.is_dir);
        Self::lemma_leaf_find(Some(last.path.last()), fresh, last.is_dir, Seq::empty());
        before.lemma_put_child(child, q);
        if k < new.len() - 1 {
            assert(new.drop_last()[k] == new[k]);
            assert forall|j: int| 0 <= j < new.drop_last().len() implies (
            #[trigger] new.drop_last()[j]).path.len() > 0 && new.drop_last()[j].path.drop_last()
                == dir by {
                assert(new.drop_last()[j] == new[j]);
            }
            assert forall|j: int| 0 <= j < new.drop_last().len() && j != k implies (
            #[trigger] new.drop_last()[j]).path != new.drop_last()[k].path by {
                assert(new.drop_last()[j] == new[j]);
            }
            self.lemma_new_child_as_wanted(new.drop_last(), fresh, dir, k);
            if last.path.last() == name {
                assert(last.path =~= last.path.drop_last().push(name));
                assert(new[k].path =~= new[k].path.drop_last().push(name));
            }
        }
    }
}

} // verus!
