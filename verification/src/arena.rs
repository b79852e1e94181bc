//! The index-based arena tree: a backing store of node records addressed by
//! stable positions, lightweight node handles, the link-maintenance
//! operations, and the traversal iterators.

use vstd::prelude::*;

use crate::context_iter::ContextIterator;
use crate::model;

verus! {

/// A link slot inside a node record: either "absent" or the position of
/// another record in the same tree. Absence is encoded as `usize::MAX`,
/// which can never be a valid position (a `Vec` of records of that length
/// cannot exist, and positions are only minted below the store's length).
#[derive(Clone, Copy, Eq, PartialEq, Hash, Debug)]
pub struct NodeIdx {
    pub idx: usize,
}

impl View for NodeIdx {
    type V = Option<int>;

    open spec fn view(&self) -> Option<int> {
        if self.idx == usize::MAX {
            None
        } else {
            Some(self.idx as int)
        }
    }
}

impl NodeIdx {
    /// The spec-level "absent" link.
    pub open spec fn spec_none() -> NodeIdx {
        NodeIdx { idx: usize::MAX }
    }

    /// The spec-level link to position `i`.
    pub open spec fn spec_at(i: int) -> NodeIdx {
        NodeIdx { idx: i as usize }
    }

    /// An absent link.
    #[verifier::when_used_as_spec(spec_none)]
    pub fn none() -> (r: Self)
        ensures
            r == NodeIdx::spec_none(),
    {
        NodeIdx { idx: usize::MAX }
    }

    pub fn is_none(&self) -> (r: bool)
        ensures
            r == (self@ is None),
    {
        self.idx == usize::MAX
    }

    pub fn is_some(&self) -> (r: bool)
        ensures
            r == (self@ is Some),
    {
        !self.is_none()
    }

    /// Whether this link addresses the record that `n` addresses.
    pub fn is_node<IdType: Copy + Eq>(&self, n: &Node<IdType>) -> (r: bool)
        ensures
            r == (self.idx == n.idx),
    {
        self.idx == n.idx
    }

    /// Turns a link into a handle tagged with `tree_id`, or `None` when the
    /// link is absent.
    pub fn as_node<IdType: Copy + Eq>(&self, tree_id: IdType) -> (r: Option<Node<IdType>>)
        ensures
            match r {
                None => self@ is None,
                Some(n) => self@ == Some(n.idx as int) && n.tree_id == tree_id,
            },
    {
        if self.is_none() {
            None
        } else {
            Some(Node { tree_id, idx: self.idx })
        }
    }
}

/// One node's payload plus its five relational links.
#[derive(Clone)]
pub struct NodeData<T> {
    pub value: T,
    pub parent: NodeIdx,
    pub first_child: NodeIdx,
    pub last_child: NodeIdx,
    pub prev_sibling: NodeIdx,
    pub next_sibling: NodeIdx,
}

/// The purely relational part of a record, as a snapshot value.
pub struct NodeIndexes {
    pub parent: NodeIdx,
    pub prev_sibling: NodeIdx,
    pub next_sibling: NodeIdx,
}

impl<T> NodeData<T> {
    /// A fresh, fully detached record carrying `value`.
    pub fn new(value: T) -> (r: Self)
        ensures
            r.value == value,
            model::detached(r),
    {
        Self {
            value,
            parent: NodeIdx::none(),
            first_child: NodeIdx::none(),
            last_child: NodeIdx::none(),
            prev_sibling: NodeIdx::none(),
            next_sibling: NodeIdx::none(),
        }
    }

    /// Snapshots the parent and sibling links.
    pub fn as_indexes(&self) -> (r: NodeIndexes)
        ensures
            r.parent == self.parent,
            r.prev_sibling == self.prev_sibling,
            r.next_sibling == self.next_sibling,
    {
        NodeIndexes {
            parent: self.parent,
            prev_sibling: self.prev_sibling,
            next_sibling: self.next_sibling,
        }
    }
}

/// A lightweight, copyable handle identifying one record: the owning tree's
/// identity tag plus the record's position. Confers no ownership; all access
/// flows through the [`Tree`].
#[derive(Clone, Copy, Eq, PartialEq, Hash, Debug)]
pub struct Node<IdType: Copy + Eq> {
    pub tree_id: IdType,
    pub idx: usize,
}

/// An ordered store of node records, tagged with an identity value chosen by
/// the embedder. The store only grows: removal unlinks a record but never
/// frees its position.
///
/// The ghost `kids` map records, for every position, the positions of its
/// children in order; it is what ties the five stored links to the intended
/// chain structure (see [`model::wf`]).
#[derive(Clone)]
pub struct Tree<IdType: Copy + Eq, T> {
    id: IdType,
    nodes: Vec<NodeData<T>>,
    kids: Ghost<Map<int, Seq<int>>>,
}

impl<IdType: Copy + Eq, T> Tree<IdType, T> {
    /// The identity tag this tree was created with.
    pub closed spec fn spec_id(&self) -> IdType {
        self.id
    }

    /// The stored records, in creation order.
    pub closed spec fn rec(&self) -> Seq<NodeData<T>> {
        self.nodes@
    }

    /// The ghost children-order map.
    pub closed spec fn kids(&self) -> Map<int, Seq<int>> {
        self.kids@
    }

    /// The five-link invariants hold for every record.
    pub open spec fn wf(&self) -> bool {
        model::wf(self.rec(), self.kids())
    }

    /// An empty tree tagged with `id`.
    pub fn new(id: IdType) -> (t: Self)
        ensures
            t.spec_id() == id,
            t.rec() == Seq::<NodeData<T>>::empty(),
            t.kids() == Map::<int, Seq<int>>::empty(),
            t.wf(),
    {
        let t = Tree { id, nodes: Vec::new(), kids: Ghost(Map::empty()) };
        proof {
            model::lemma_wf_empty::<T>();
        }
        t
    }

    /// Allocates a record for `data` at the next free position, with all
    /// links absent, and returns its handle.
    pub fn create_node(&mut self, data: T) -> (n: Node<IdType>)
        requires
            old(self).wf(),
        ensures
            final(self).wf(),
            final(self).spec_id() == old(self).spec_id(),
            n.tree_id == old(self).spec_id(),
            n.idx == old(self).rec().len(),
            final(self).rec().len() == old(self).rec().len() + 1,
            final(self).rec() == old(self).rec().push(final(self).rec().last()),
            final(self).rec().last().value == data,
            model::detached(final(self).rec().last()),
            final(self).kids() == old(self).kids().insert(old(self).rec().len() as int, Seq::<int>::empty()),
            forall|k: int|
                0 <= k < old(self).rec().len() && model::rooted(old(self).rec(), k)
                    ==> model::rooted(final(self).rec(), k),
            model::rooted(final(self).rec(), old(self).rec().len() as int),
    {
        let idx = self.nodes.len();
        let d = NodeData::new(data);
        self.nodes.push(d);
        proof {
            self.kids@ = self.kids@.insert(idx as int, Seq::<int>::empty());
            model::lemma_wf_extend(old(self).rec(), old(self).kids(), self.rec().last());
            assert(self.rec() =~= old(self).rec().push(self.rec().last()));
            assert forall|k: int|
                0 <= k < old(self).rec().len() && model::rooted(old(self).rec(), k)
                implies model::rooted(self.rec(), k) by {
                let d0 = model::dist_to_root(old(self).rec(), k);
                assert(model::is_root_at(old(self).rec(), k, d0));
                let e = model::up(old(self).rec(), k, d0).unwrap();
                model::lemma_rooted_parents_agree(
                    old(self).rec(),
                    old(self).kids(),
                    self.rec(),
                    e,
                    k,
                );
            }
            model::lemma_parentless_rooted(self.rec(), idx as int);
        }
        Node { tree_id: self.id, idx }
    }

    /// A lazy pass over every record ever created, in creation order,
    /// orphaned and removed nodes included. The bound is snapshotted now:
    /// nodes created later are not seen by this iterator instance.
    pub fn all_nodes(&self) -> (r: AllNodesIter<IdType>)
        ensures
            r.tree_id == self.spec_id(),
            r.cur_idx == 0,
            r.term_at_idx == self.rec().len(),
    {
        AllNodesIter { tree_id: self.id, cur_idx: 0, term_at_idx: self.nodes.len() }
    }

    /// The root ancestor of the first-created record, or `None` for an
    /// empty tree. A convenience: in a multi-root forest the other roots
    /// are not visited.
    pub fn first_root_node(&self) -> (r: Option<Node<IdType>>)
        requires
            self.wf(),
            self.rec().len() > 0 ==> model::rooted(self.rec(), 0),
        ensures
            r is Some <==> self.rec().len() > 0,
            match r {
                None => true,
                Some(n) => {
                    &&& n.tree_id == self.spec_id()
                    &&& n.valid(self)
                    &&& self.rec()[n.idx as int].parent@ is None
                    &&& exists|k: nat| model::up(self.rec(), 0, k) == Some(n.idx as int)
                },
            },
    {
        if self.nodes.len() == 0 {
            None
        } else {
            let first_node = Node { tree_id: self.id, idx: 0 };
            Some(first_node.root(self))
        }
    }

    /// A linear scan over `all_nodes()`: the first handle whose record
    /// satisfies `predicate`, or `None` when no record does.
    pub fn find_first<F: Fn(&Node<IdType>) -> bool>(&self, predicate: F) -> (r: Option<
        Node<IdType>,
    >)
        requires
            forall|n: Node<IdType>|
                n.tree_id == self.spec_id() && n.idx < self.rec().len()
                    ==> #[trigger] call_requires(predicate, (&n,)),
        ensures
            match r {
                Some(n) => {
                    &&& n.tree_id == self.spec_id()
                    &&& (n.idx as int) < self.rec().len()
                    &&& call_ensures(predicate, (&n,), true)
                    &&& forall|j: int|
                        0 <= j < n.idx ==> #[trigger] call_ensures(
                            predicate,
                            (&Node { tree_id: self.spec_id(), idx: j as usize },),
                            false,
                        )
                },
                None => forall|j: int|
                    0 <= j < self.rec().len() ==> #[trigger] call_ensures(
                        predicate,
                        (&Node { tree_id: self.spec_id(), idx: j as usize },),
                        false,
                    ),
            },
    {
        let len = self.nodes.len();
        let mut i: usize = 0;
        while i < len
            invariant
                len == self.rec().len(),
                0 <= i <= len,
                forall|n: Node<IdType>|
                    n.tree_id == self.spec_id() && n.idx < self.rec().len()
                        ==> #[trigger] call_requires(predicate, (&n,)),
                forall|j: int|
                    0 <= j < i ==> #[trigger] call_ensures(
                        predicate,
                        (&Node { tree_id: self.spec_id(), idx: j as usize },),
                        false,
                    ),
            decreases len - i,
        {
            let n = Node { tree_id: self.id, idx: i };
            if predicate(&n) {
                return Some(n);
            }
            i = i + 1;
        }
        None
    }

    /// Overwrites the parent and sibling links of the record at `i`.
    fn set_rel(&mut self, i: usize, parent: NodeIdx, prev: NodeIdx, next: NodeIdx)
        requires
            i < old(self).rec().len(),
        ensures
            final(self).rec() == old(self).rec().update(
                i as int,
                model::with_rel(old(self).rec()[i as int], parent, prev, next),
            ),
            final(self).spec_id() == old(self).spec_id(),
            final(self).kids() == old(self).kids(),
    {
        let d = &mut self.nodes[i];
        d.parent = parent;
        d.prev_sibling = prev;
        d.next_sibling = next;
    }

    /// Overwrites the child links of the record at `i`.
    fn set_children(&mut self, i: usize, first_child: NodeIdx, last_child: NodeIdx)
        requires
            i < old(self).rec().len(),
        ensures
            final(self).rec() == old(self).rec().update(
                i as int,
                model::with_children(old(self).rec()[i as int], first_child, last_child),
            ),
            final(self).spec_id() == old(self).spec_id(),
            final(self).kids() == old(self).kids(),
    {
        let d = &mut self.nodes[i];
        d.first_child = first_child;
        d.last_child = last_child;
    }

    /// Overwrites the next-sibling link of the record at `i`.
    fn set_next_link(&mut self, i: usize, next: NodeIdx)
        requires
            i < old(self).rec().len(),
        ensures
            final(self).rec() == old(self).rec().update(
                i as int,
                model::with_next(old(self).rec()[i as int], next),
            ),
            final(self).spec_id() == old(self).spec_id(),
            final(self).kids() == old(self).kids(),
    {
        let d = &mut self.nodes[i];
        d.next_sibling = next;
    }

    /// Overwrites the previous-sibling link of the record at `i`.
    fn set_prev_link(&mut self, i: usize, prev: NodeIdx)
        requires
            i < old(self).rec().len(),
        ensures
            final(self).rec() == old(self).rec().update(
                i as int,
                model::with_prev(old(self).rec()[i as int], prev),
            ),
            final(self).spec_id() == old(self).spec_id(),
            final(self).kids() == old(self).kids(),
    {
        let d = &mut self.nodes[i];
        d.prev_sibling = prev;
    }
}

impl<IdType: Copy + Eq> Node<IdType> {
    /// The handle addresses a record of `t`: its tag matches and its
    /// position is below the store's length.
    pub open spec fn valid<T>(&self, t: &Tree<IdType, T>) -> bool {
        &&& self.tree_id == t.spec_id()
        &&& (self.idx as int) < t.rec().len()
    }

    /// A shared borrow of this handle's record.
    fn get<'a, T>(&self, t: &'a Tree<IdType, T>) -> (r: &'a NodeData<T>)
        requires
            self.valid(t),
        ensures
            *r == t.rec()[self.idx as int],
    {
        &t.nodes[self.idx]
    }

    /// A mutable borrow of this handle's record.
    fn get_mut<'a, T>(&self, t: &'a mut Tree<IdType, T>) -> (r: &'a mut NodeData<T>)
        requires
            self.valid(old(t)),
        ensures
            *r == old(t).rec()[self.idx as int],
            final(t).rec() == old(t).rec().update(self.idx as int, *final(r)),
            final(t).spec_id() == old(t).spec_id(),
            final(t).kids() == old(t).kids(),
    {
        &mut t.nodes[self.idx]
    }

    fn as_idx(&self) -> (r: NodeIdx)
        ensures
            r.idx == self.idx,
    {
        NodeIdx { idx: self.idx }
    }

    pub fn parent<T>(&self, t: &Tree<IdType, T>) -> (r: Option<Node<IdType>>)
        requires
            self.valid(t),
        ensures
            link_as_node(t.rec()[self.idx as int].parent, self.tree_id, r),
    {
        self.get(t).parent.as_node(self.tree_id)
    }

    pub fn first_child<T>(&self, t: &Tree<IdType, T>) -> (r: Option<Node<IdType>>)
        requires
            self.valid(t),
        ensures
            link_as_node(t.rec()[self.idx as int].first_child, self.tree_id, r),
    {
        self.get(t).first_child.as_node(self.tree_id)
    }

    pub fn last_child<T>(&self, t: &Tree<IdType, T>) -> (r: Option<Node<IdType>>)
        requires
            self.valid(t),
        ensures
            link_as_node(t.rec()[self.idx as int].last_child, self.tree_id, r),
    {
        self.get(t).last_child.as_node(self.tree_id)
    }

    pub fn prev_sibling<T>(&self, t: &Tree<IdType, T>) -> (r: Option<Node<IdType>>)
        requires
            self.valid(t),
        ensures
            link_as_node(t.rec()[self.idx as int].prev_sibling, self.tree_id, r),
    {
        self.get(t).prev_sibling.as_node(self.tree_id)
    }

    pub fn next_sibling<T>(&self, t: &Tree<IdType, T>) -> (r: Option<Node<IdType>>)
        requires
            self.valid(t),
        ensures
            link_as_node(t.rec()[self.idx as int].next_sibling, self.tree_id, r),
    {
        self.get(t).next_sibling.as_node(self.tree_id)
    }

    /// A shared borrow of this node's payload.
    pub fn value<'a, T>(&self, t: &'a Tree<IdType, T>) -> (r: &'a T)
        requires
            self.valid(t),
        ensures
            *r == t.rec()[self.idx as int].value,
    {
        &self.get(t).value
    }

    /// A mutable borrow of this node's payload. Only the payload can change
    /// through it; the link structure (and so well-formedness) is untouched.
    pub fn value_mut<'a, T>(&self, t: &'a mut Tree<IdType, T>) -> (r: &'a mut T)
        requires
            self.valid(old(t)),
        ensures
            *r == old(t).rec()[self.idx as int].value,
            final(t).rec() == old(t).rec().update(
                self.idx as int,
                model::with_value(old(t).rec()[self.idx as int], *final(r)),
            ),
            final(t).spec_id() == old(t).spec_id(),
            final(t).kids() == old(t).kids(),
    {
        &mut self.get_mut(t).value
    }

    /// A sibling walk over this node's children that borrows the tree for
    /// the iterator's lifetime.
    pub fn children<'a, T>(&self, t: &'a Tree<IdType, T>) -> (r: ContextFreeSiblingIter<
        'a,
        IdType,
        T,
    >)
        requires
            t.wf(),
            self.valid(t),
        ensures
            r.tree == t,
            r.wf_self(),
            link_as_node(t.rec()[self.idx as int].first_child, self.tree_id, r.next),
    {
        let next = self.first_child(t);
        proof {
            assert(model::rec_ok(t.rec(), t.kids(), self.idx as int));
        }
        ContextFreeSiblingIter { next, tree: t }
    }

    /// A sibling walk over this node's children that takes the tree as an
    /// explicit argument at each step, so the tree (or its payloads) can
    /// be altered while iterating. Removing upcoming siblings or relinking
    /// them between steps sends the walk wherever the stored links then
    /// point.
    pub fn children_mut<T>(&self, t: &Tree<IdType, T>) -> (r: SiblingIter<IdType, T>)
        requires
            t.wf(),
            self.valid(t),
        ensures
            r.wf_for(t),
            link_as_node(t.rec()[self.idx as int].first_child, self.tree_id, r.next),
    {
        proof {
            assert(model::rec_ok(t.rec(), t.kids(), self.idx as int));
        }
        SiblingIter::new(self.first_child(t))
    }

    /// A pre-order depth-first traversal of this node's subtree (the node
    /// itself at depth zero), borrowing the tree for the iterator's
    /// lifetime.
    pub fn depth_first_search<'a, T>(&self, t: &'a Tree<IdType, T>) -> (r:
        ContextFreeDepthFirstIter<'a, IdType, T>)
        requires
            t.wf(),
            self.valid(t),
        ensures
            r.context == t,
            r.wf_self(),
            r.iter.next == Some(*self),
            r.iter.parents@ == Seq::<Node<IdType>>::empty(),
    {
        let iter = self.depth_first_search_mut();
        ContextFreeDepthFirstIter { iter, context: t }
    }

    /// The traversal of [`Self::depth_first_search`] in its
    /// context-threaded form: each step takes the tree as an argument, so
    /// the tree may be mutated mid-traversal.
    pub fn depth_first_search_mut<T>(&self) -> (r: DepthFirstIter<IdType, T>)
        ensures
            r.next == Some(*self),
            r.parents@ == Seq::<Node<IdType>>::empty(),
    {
        DepthFirstIter::new(*self)
    }

    /// The first depth-and-handle pair in this node's pre-order traversal
    /// that satisfies `predicate`, or `None` when no scanned pair does.
    /// The scan takes one traversal step per record ever created (plus
    /// one), which covers the whole subtree of any acyclic forest.
    pub fn find_first<T, Predicate: Fn(&(usize, Node<IdType>)) -> bool>(
        &self,
        t: &Tree<IdType, T>,
        predicate: Predicate,
    ) -> (r: Option<(usize, Node<IdType>)>)
        requires
            t.wf(),
            self.valid(t),
            forall|pair: (usize, Node<IdType>)|
                pair.1.valid(t) ==> #[trigger] call_requires(predicate, (&pair,)),
        ensures
            ({
                let full = dfs_trace(
                    Seq::<Node<IdType>>::empty(),
                    Some(*self),
                    t,
                    (t.rec().len() + 1) as nat,
                );
                match r {
                    Some(pair) => {
                        &&& pair.1.valid(t)
                        &&& call_ensures(predicate, (&pair,), true)
                        &&& exists|e: int|
                            0 <= e < full.len() && #[trigger] full[e] == pair && (forall|j: int|
                                0 <= j < e ==> #[trigger] call_ensures(
                                    predicate,
                                    (&full[j],),
                                    false,
                                ))
                    },
                    None => forall|j: int|
                        0 <= j < full.len() ==> #[trigger] call_ensures(
                            predicate,
                            (&full[j],),
                            false,
                        ),
                }
            }),
    {
        let ghost full = dfs_trace(
            Seq::<Node<IdType>>::empty(),
            Some(*self),
            t,
            (t.rec().len() + 1) as nat,
        );
        let mut iter: DepthFirstIter<IdType, T> = self.depth_first_search_mut();
        let mut steps_left: usize = t.nodes.len();
        let ghost mut done: int = 0;
        proof {
            vstd::std_specs::vec::axiom_spec_len(&t.nodes);
            assert(full =~= full.take(0) + dfs_trace(
                iter.parents@,
                iter.next,
                t,
                (steps_left + 1) as nat,
            ));
        }
        loop
            invariant
                t.wf(),
                self.valid(t),
                iter.wf_for(t),
                forall|pair: (usize, Node<IdType>)|
                    pair.1.valid(t) ==> #[trigger] call_requires(predicate, (&pair,)),
                full == dfs_trace(
                    Seq::<Node<IdType>>::empty(),
                    Some(*self),
                    t,
                    (t.rec().len() + 1) as nat,
                ),
                0 <= done <= full.len(),
                full == full.take(done) + dfs_trace(
                    iter.parents@,
                    iter.next,
                    t,
                    (steps_left + 1) as nat,
                ),
                forall|j: int|
                    0 <= j < done ==> #[trigger] call_ensures(predicate, (&full[j],), false),
            decreases steps_left,
        {
            let ghost pre = iter;
            let ghost fuel = (steps_left + 1) as nat;
            let ghost rest = dfs_trace(pre.parents@, pre.next, t, fuel);
            match iter.next_value(t) {
                None => {
                    proof {
                        assert(rest =~= Seq::<(usize, Node<IdType>)>::empty());
                        assert(full.take(done) =~= full);
                    }
                    return None;
                },
                Some(pair) => {
                    proof {
                        assert(rest[0] == pair);
                        assert(rest.len() >= 1);
                        assert(full[done] == pair);
                        assert(done < full.len());
                    }
                    if predicate(&pair) {
                        proof {
                            assert(0 <= done < full.len() && full[done] == pair && (forall|j: int|
                                0 <= j < done ==> #[trigger] call_ensures(
                                    predicate,
                                    (&full[j],),
                                    false,
                                )));
                        }
                        return Some(pair);
                    }
                    proof {
                        done = done + 1;
                        assert((iter.parents@, iter.next) == dfs_advance(
                            pre.parents@,
                            pre.next.unwrap(),
                            t,
                        ));
                        assert(rest == seq![pair] + dfs_trace(
                            iter.parents@,
                            iter.next,
                            t,
                            (fuel - 1) as nat,
                        ));
                        assert(full.take(done) =~= full.take(done - 1).push(pair));
                        assert(full =~= full.take(done) + dfs_trace(
                            iter.parents@,
                            iter.next,
                            t,
                            (fuel - 1) as nat,
                        ));
                    }
                    if steps_left == 0 {
                        proof {
                            assert(dfs_trace(iter.parents@, iter.next, t, 0nat) =~= Seq::<
                                (usize, Node<IdType>),
                            >::empty());
                            assert(full.take(done) =~= full);
                        }
                        return None;
                    }
                    steps_left = steps_left - 1;
                },
            }
        }
    }

    /// Walks parent links from this node until a record without a parent
    /// is reached: this node's root ancestor. Requires the ancestor chain
    /// to end (which holds for every forest actually built by creation and
    /// placement of fresh nodes).
    pub fn root<T>(&self, t: &Tree<IdType, T>) -> (r: Node<IdType>)
        requires
            t.wf(),
            self.valid(t),
            model::rooted(t.rec(), self.idx as int),
        ensures
            r.tree_id == self.tree_id,
            r.valid(t),
            t.rec()[r.idx as int].parent@ is None,
            exists|k: nat| model::up(t.rec(), self.idx as int, k) == Some(r.idx as int),
    {
        let mut cur = *self;
        let mut p_opt = cur.parent(t);
        proof {
            assert(model::up(t.rec(), self.idx as int, 0) == Some(cur.idx as int));
        }
        while p_opt.is_some()
            invariant
                t.wf(),
                self.valid(t),
                cur.valid(t),
                cur.tree_id == self.tree_id,
                model::rooted(t.rec(), cur.idx as int),
                link_as_node(t.rec()[cur.idx as int].parent, self.tree_id, p_opt),
                exists|k: nat| model::up(t.rec(), self.idx as int, k) == Some(cur.idx as int),
            decreases model::dist_to_root(t.rec(), cur.idx as int),
        {
            let p = p_opt.unwrap();
            proof {
                assert(model::rec_ok(t.rec(), t.kids(), cur.idx as int));
                model::lemma_parent_step_to_root(t.rec(), cur.idx as int, p.idx as int);
                let k = choose|k: nat|
                    model::up(t.rec(), self.idx as int, k) == Some(cur.idx as int);
                assert(model::up(t.rec(), self.idx as int, (k + 1) as nat) == Some(p.idx as int));
            }
            cur = p;
            p_opt = cur.parent(t);
        }
        cur
    }

    /// Detaches this node from its parent and siblings, repairing their
    /// links around it; a no-op when the node has no parent (so removing
    /// twice equals removing once). The node's own children stay attached
    /// to it, and its payload stays stored at its position.
    pub fn remove<T>(&self, t: &mut Tree<IdType, T>)
        requires
            old(t).wf(),
            self.valid(old(t)),
        ensures
            final(t).wf(),
            final(t).spec_id() == old(t).spec_id(),
            final(t).rec() == model::detach(old(t).rec(), self.idx as int),
            final(t).kids() == model::detach_kids(old(t).rec(), old(t).kids(), self.idx as int),
            final(t).rec().len() == old(t).rec().len(),
            final(t).rec()[self.idx as int].parent@ is None,
            final(t).rec()[self.idx as int].prev_sibling@ is None,
            final(t).rec()[self.idx as int].next_sibling@ is None,
            forall|k: int|
                0 <= k < old(t).rec().len() ==> (#[trigger] final(t).rec()[k]).value
                    == old(t).rec()[k].value,
            forall|k: int|
                0 <= k < old(t).rec().len() && k != self.idx as int
                    ==> (#[trigger] final(t).rec()[k]).parent == old(t).rec()[k].parent,
            old(t).rec()[self.idx as int].parent@ is None ==> *final(t) == *old(t),
            forall|k: int|
                0 <= k < old(t).rec().len() && model::rooted(old(t).rec(), k) ==> model::rooted(
                    final(t).rec(),
                    k,
                ),
            model::rooted(final(t).rec(), self.idx as int),
    {
        let i = self.idx;
        let d = self.get(t);
        let lp = d.parent;
        let lpr = d.prev_sibling;
        let lnx = d.next_sibling;
        proof {
            assert(model::rec_ok(old(t).rec(), old(t).kids(), i as int));
        }
        if lp.is_some() {
            t.set_rel(i, NodeIdx::none(), NodeIdx::none(), NodeIdx::none());
            let p = lp.idx;
            let pfc = t.nodes[p].first_child;
            let plc = t.nodes[p].last_child;
            let nfc = if pfc.idx == i {
                lnx
            } else {
                pfc
            };
            let nlc = if plc.idx == i {
                lpr
            } else {
                plc
            };
            t.set_children(p, nfc, nlc);
            if lpr.is_some() {
                t.set_next_link(lpr.idx, lnx);
            }
            if lnx.is_some() {
                t.set_prev_link(lnx.idx, lpr);
            }
            proof {
                t.kids@ = model::detach_kids(old(t).rec(), old(t).kids(), i as int);
                model::lemma_detach_wf(old(t).rec(), old(t).kids(), i as int);
                assert(t.rec() =~= model::detach(old(t).rec(), i as int));
            }
        }
        proof {
            assert forall|k: int|
                0 <= k < old(t).rec().len() && model::rooted(old(t).rec(), k)
                implies model::rooted(t.rec(), k) by {
                if old(t).rec()[i as int].parent@ is Some {
                    model::lemma_rooted_parents_agree(
                        old(t).rec(),
                        old(t).kids(),
                        t.rec(),
                        i as int,
                        k,
                    );
                }
            }
            model::lemma_parentless_rooted(t.rec(), i as int);
        }
    }
}

impl<IdType: Copy + Eq> Node<IdType> {
    /// Removes this node's children one by one (always the current first
    /// child) until none remain. Afterwards this node's first/last-child
    /// links are both absent and every former child is fully unlinked:
    /// parent and sibling links absent, though each keeps its own subtree.
    /// Records that were not children of this node are untouched.
    pub fn remove_children<T>(&self, t: &mut Tree<IdType, T>)
        requires
            old(t).wf(),
            self.valid(old(t)),
        ensures
            final(t).wf(),
            final(t).spec_id() == old(t).spec_id(),
            final(t).rec().len() == old(t).rec().len(),
            final(t).kids() == old(t).kids().insert(self.idx as int, Seq::<int>::empty()),
            final(t).rec()[self.idx as int].first_child@ is None,
            final(t).rec()[self.idx as int].last_child@ is None,
            forall|k: int|
                old(t).kids()[self.idx as int].contains(k) ==> {
                    &&& (#[trigger] final(t).rec()[k]).parent@ is None
                    &&& final(t).rec()[k].prev_sibling@ is None
                    &&& final(t).rec()[k].next_sibling@ is None
                },
            forall|k: int|
                0 <= k < old(t).rec().len() ==> (#[trigger] final(t).rec()[k]).value
                    == old(t).rec()[k].value,
            forall|k: int|
                0 <= k < old(t).rec().len() && k != self.idx as int && !old(t).kids()[
                    self.idx as int
                ].contains(k) ==> (#[trigger] final(t).rec()[k]) == old(t).rec()[k],
            forall|k: int|
                0 <= k < old(t).rec().len() && model::rooted(old(t).rec(), k) ==> model::rooted(
                    final(t).rec(),
                    k,
                ),
    {
        let ghost p_int = self.idx as int;
        let ghost orig_rec = old(t).rec();
        let ghost orig_kids = old(t).kids();
        let ghost orig_cs = old(t).kids()[self.idx as int];
        let mut fc_opt = self.first_child(t);
        let ghost mut j: int = 0;
        proof {
            assert(t.kids() =~~= orig_kids.insert(p_int, orig_cs.skip(0)));
            assert(model::chain_ok(orig_rec, p_int, orig_kids[p_int]));
            assert forall|a: int| 0 <= a < orig_cs.len() implies 0 <= #[trigger] orig_cs[a]
                < orig_rec.len() by {
                assert(model::chain_entry_ok(orig_rec, p_int, orig_cs, a));
            }
        }
        while fc_opt.is_some()
            invariant
                t.wf(),
                self.valid(t),
                p_int == self.idx as int,
                t.spec_id() == old(t).spec_id(),
                t.rec().len() == orig_rec.len(),
                0 <= j <= orig_cs.len(),
                t.kids() == orig_kids.insert(p_int, orig_cs.skip(j)),
                orig_cs.no_duplicates(),
                forall|a: int| 0 <= a < orig_cs.len() ==> 0 <= #[trigger] orig_cs[a] < orig_rec.len(),
                link_as_node(t.rec()[p_int].first_child, self.tree_id, fc_opt),
                forall|a: int|
                    0 <= a < j ==> {
                        &&& (#[trigger] t.rec()[orig_cs[a]]).parent@ is None
                        &&& t.rec()[orig_cs[a]].prev_sibling@ is None
                        &&& t.rec()[orig_cs[a]].next_sibling@ is None
                    },
                forall|k: int|
                    0 <= k < orig_rec.len() ==> (#[trigger] t.rec()[k]).value == orig_rec[k].value,
                forall|k: int|
                    0 <= k < orig_rec.len() && k != p_int && !orig_cs.contains(k) ==> (
                    #[trigger] t.rec()[k]) == orig_rec[k],
                forall|k: int|
                    0 <= k < orig_rec.len() && model::rooted(orig_rec, k) ==> model::rooted(
                        t.rec(),
                        k,
                    ),
            decreases orig_cs.len() - j,
        {
            let ghost prev_rec = t.rec();
            let ghost prev_kids = t.kids();
            let ghost cs_j = orig_cs.skip(j);
            let c = fc_opt.unwrap();
            proof {
                assert(prev_kids[p_int] == cs_j);
                assert(model::chain_ok(prev_rec, p_int, prev_kids[p_int]));
                assert(prev_rec[p_int].first_child@ is Some);
                assert(cs_j.len() > 0);
                assert(model::chain_entry_ok(prev_rec, p_int, cs_j, 0));
                assert(c.idx as int == cs_j[0]);
                assert(cs_j[0] == orig_cs[j]);
                if cs_j.len() > 1 {
                    assert(model::chain_entry_ok(prev_rec, p_int, cs_j, 1));
                }
            }
            c.remove(t);
            proof {
                let qi = cs_j.index_of(c.idx as int);
                assert(cs_j.contains(c.idx as int));
                assert(cs_j[qi] == c.idx as int);
                assert(qi == 0);
                assert(cs_j.remove(0) =~= orig_cs.skip(j + 1));
                assert(t.kids() =~~= orig_kids.insert(p_int, orig_cs.skip(j + 1)));
                j = j + 1;
                // the records this step touched: the removed child itself
                // (now cleared) and, for its links, only chain members
                assert forall|a: int| 0 <= a < j implies {
                    &&& (#[trigger] t.rec()[orig_cs[a]]).parent@ is None
                    &&& t.rec()[orig_cs[a]].prev_sibling@ is None
                    &&& t.rec()[orig_cs[a]].next_sibling@ is None
                } by {
                    if a < j - 1 {
                        let k = orig_cs[a];
                        assert(prev_rec[k].parent@ is None);
                        assert(prev_rec[k].prev_sibling@ is None);
                        assert(prev_rec[k].next_sibling@ is None);
                        assert(k != c.idx as int);
                        assert(prev_rec[c.idx as int].prev_sibling@ is None);
                        if cs_j.len() > 1 {
                            assert(cs_j[1] == orig_cs[j]);
                            assert(cs_j[1] != k);
                        }
                    } else {
                        assert(orig_cs[a] == c.idx as int);
                    }
                }
            }
            fc_opt = self.first_child(t);
        }
        proof {
            assert(model::chain_ok(t.rec(), p_int, t.kids()[p_int]));
            assert(orig_cs.skip(j).len() == 0);
            assert(t.kids() =~~= orig_kids.insert(p_int, Seq::<int>::empty()));
            assert forall|k: int| orig_cs.contains(k) implies {
                &&& (#[trigger] t.rec()[k]).parent@ is None
                &&& t.rec()[k].prev_sibling@ is None
                &&& t.rec()[k].next_sibling@ is None
            } by {
                let a = choose|a: int| 0 <= a < orig_cs.len() && orig_cs[a] == k;
                assert(t.rec()[orig_cs[a]].parent@ is None);
            }
        }
    }

    /// The store after `child` is detached and re-attached at chain
    /// position `q` under `p`: the common shape of every placement
    /// operation's result.
    pub open spec fn placed_rec<T>(t: &Tree<IdType, T>, p: int, c: int, q: int) -> Seq<
        NodeData<T>,
    > {
        let ds = model::detach(t.rec(), c);
        let dm = model::detach_kids(t.rec(), t.kids(), c);
        model::attach_at(ds, p, c, model::attach_left(dm, p, q), model::attach_right(dm, p, q))
    }

    /// The child chains after `child` is detached and re-attached at chain
    /// position `q` under `p`.
    pub open spec fn placed_kids<T>(t: &Tree<IdType, T>, p: int, c: int, q: int) -> Map<
        int,
        Seq<int>,
    > {
        let dm = model::detach_kids(t.rec(), t.kids(), c);
        model::attach_kids(dm, p, c, q)
    }

    /// Common postconditions of every placement operation: well-formedness
    /// is preserved, no payload changes, `child` now has parent `p`, and no
    /// other record's parent link changes (so `child`'s subtree, if any,
    /// moves with it).
    pub open spec fn placed<T>(
        old_t: &Tree<IdType, T>,
        new_t: &Tree<IdType, T>,
        p: int,
        c: int,
        q: int,
    ) -> bool {
        &&& new_t.wf()
        &&& new_t.spec_id() == old_t.spec_id()
        &&& new_t.rec() == Self::placed_rec(old_t, p, c, q)
        &&& new_t.kids() == Self::placed_kids(old_t, p, c, q)
        &&& new_t.rec().len() == old_t.rec().len()
        &&& new_t.rec()[c].parent@ == Some(p)
        &&& forall|k: int|
            0 <= k < old_t.rec().len() ==> (#[trigger] new_t.rec()[k]).value == old_t.rec()[
                k
            ].value
        &&& forall|k: int|
            0 <= k < old_t.rec().len() && k != c ==> (#[trigger] new_t.rec()[k]).parent == old_t
                .rec()[k].parent
    }

    /// Relocates `child` (detaching it from wherever it is) to be this
    /// node's new last child.
    pub fn append_child<T>(&self, t: &mut Tree<IdType, T>, child: Node<IdType>) -> (r: Node<
        IdType,
    >)
        requires
            old(t).wf(),
            self.valid(old(t)),
            child.valid(old(t)),
        ensures
            r == child,
            Self::placed(
                old(t),
                final(t),
                self.idx as int,
                child.idx as int,
                model::detach_kids(old(t).rec(), old(t).kids(), child.idx as int)[
                    self.idx as int
                ].len() as int,
            ),
            final(t).rec()[self.idx as int].last_child@ == Some(child.idx as int),
    {
        let ghost q = model::detach_kids(old(t).rec(), old(t).kids(), child.idx as int)[
            self.idx as int
        ].len() as int;
        child.remove(t);
        let ghost ds = t.rec();
        let ghost dm = t.kids();
        let p = self.idx;
        let c = child.idx;
        let last_child = t.nodes[p].last_child;
        proof {
            vstd::std_specs::vec::axiom_spec_len(&t.nodes);
            assert(model::chain_ok(ds, p as int, dm[p as int]));
            if dm[p as int].len() > 0 {
                assert(model::chain_entry_ok(ds, p as int, dm[p as int], dm[p as int].len() - 1));
            }
            assert(last_child == model::attach_left(dm, p as int, q));
            model::lemma_attach_wf(ds, dm, p as int, c as int, q);
        }
        if last_child.is_none() {
            t.set_rel(c, self.as_idx(), NodeIdx::none(), NodeIdx::none());
            t.set_children(p, child.as_idx(), child.as_idx());
        } else {
            t.set_next_link(last_child.idx, child.as_idx());
            let fc = t.nodes[p].first_child;
            t.set_rel(c, self.as_idx(), last_child, NodeIdx::none());
            t.set_children(p, fc, child.as_idx());
        }
        proof {
            t.kids@ = model::attach_kids(dm, p as int, c as int, q);
            assert(t.rec() =~= model::attach_at(
                ds,
                p as int,
                c as int,
                model::attach_left(dm, p as int, q),
                model::attach_right(dm, p as int, q),
            ));
        }
        child
    }

    /// Creates a node for `child_value` and appends it as this node's new
    /// last child.
    pub fn append_child_value<T>(&self, t: &mut Tree<IdType, T>, child_value: T) -> (r: Node<
        IdType,
    >)
        requires
            old(t).wf(),
            self.valid(old(t)),
        ensures
            final(t).wf(),
            final(t).spec_id() == old(t).spec_id(),
            r.tree_id == old(t).spec_id(),
            r.idx == old(t).rec().len(),
            final(t).rec().len() == old(t).rec().len() + 1,
            final(t).rec()[r.idx as int].value == child_value,
            final(t).rec()[r.idx as int].parent@ == Some(self.idx as int),
            final(t).rec()[self.idx as int].last_child@ == Some(r.idx as int),
            forall|k: int|
                0 <= k < old(t).rec().len() ==> (#[trigger] final(t).rec()[k]).value == old(t).rec()[k].value,
            forall|k: int|
                0 <= k < old(t).rec().len() ==> (#[trigger] final(t).rec()[k]).parent == old(t).rec()[k].parent,
            forall|k: int|
                0 <= k < old(t).rec().len() && model::rooted(old(t).rec(), k) ==> model::rooted(
                    final(t).rec(),
                    k,
                ),
            model::rooted(old(t).rec(), self.idx as int) ==> model::rooted(
                final(t).rec(),
                r.idx as int,
            ),
    {
        let n = t.create_node(child_value);
        let ghost mid = *t;
        self.append_child(t, n);
        proof {
            lemma_fresh_attach_rooted(
                mid,
                *t,
                self.idx as int,
                n.idx as int,
                model::detach_kids(mid.rec(), mid.kids(), n.idx as int)[
                    self.idx as int
                ].len() as int,
            );
        }
        n
    }

    /// Relocates `child` (detaching it from wherever it is) to be this
    /// node's new first child.
    pub fn prepend_child<T>(&self, t: &mut Tree<IdType, T>, child: Node<IdType>) -> (r: Node<
        IdType,
    >)
        requires
            old(t).wf(),
            self.valid(old(t)),
            child.valid(old(t)),
        ensures
            r == child,
            Self::placed(old(t), final(t), self.idx as int, child.idx as int, 0),
            final(t).rec()[self.idx as int].first_child@ == Some(child.idx as int),
    {
        child.remove(t);
        let ghost ds = t.rec();
        let ghost dm = t.kids();
        let p = self.idx;
        let c = child.idx;
        let first_child = t.nodes[p].first_child;
        proof {
            vstd::std_specs::vec::axiom_spec_len(&t.nodes);
            assert(model::chain_ok(ds, p as int, dm[p as int]));
            if dm[p as int].len() > 0 {
                assert(model::chain_entry_ok(ds, p as int, dm[p as int], 0));
            }
            assert(first_child == model::attach_right(dm, p as int, 0));
            model::lemma_attach_wf(ds, dm, p as int, c as int, 0);
        }
        if first_child.is_none() {
            t.set_rel(c, self.as_idx(), NodeIdx::none(), NodeIdx::none());
            t.set_children(p, child.as_idx(), child.as_idx());
        } else {
            t.set_prev_link(first_child.idx, child.as_idx());
            let lc = t.nodes[p].last_child;
            t.set_rel(c, self.as_idx(), NodeIdx::none(), first_child);
            t.set_children(p, child.as_idx(), lc);
        }
        proof {
            t.kids@ = model::attach_kids(dm, p as int, c as int, 0);
            assert(t.rec() =~= model::attach_at(
                ds,
                p as int,
                c as int,
                model::attach_left(dm, p as int, 0),
                model::attach_right(dm, p as int, 0),
            ));
        }
        child
    }

    /// Relocates `sibling` (detaching it from wherever it is) to sit
    /// immediately after this node under this node's parent. This node must
    /// have a parent, and a node cannot be inserted beside itself.
    pub fn insert_next_sibling<T>(&self, t: &mut Tree<IdType, T>, sibling: Node<IdType>) -> (r:
        Node<IdType>)
        requires
            old(t).wf(),
            self.valid(old(t)),
            sibling.valid(old(t)),
            sibling.idx != self.idx,
            old(t).rec()[self.idx as int].parent@ is Some,
        ensures
            r == sibling,
            Self::placed(
                old(t),
                final(t),
                old(t).rec()[self.idx as int].parent@.unwrap(),
                sibling.idx as int,
                model::detach_kids(old(t).rec(), old(t).kids(), sibling.idx as int)[
                    old(t).rec()[self.idx as int].parent@.unwrap()
                ].index_of(self.idx as int) + 1,
            ),
            final(t).rec()[self.idx as int].next_sibling@ == Some(sibling.idx as int),
            final(t).rec()[sibling.idx as int].prev_sibling@ == Some(self.idx as int),
    {
        let ghost p_int = old(t).rec()[self.idx as int].parent@.unwrap();
        let p_link = self.get(t).parent;
        sibling.remove(t);
        let ghost ds = t.rec();
        let ghost dm = t.kids();
        let ghost q = dm[p_int].index_of(self.idx as int) + 1;
        proof {
            vstd::std_specs::vec::axiom_spec_len(&t.nodes);
            model::lemma_chain_position(ds, dm, self.idx as int);
            assert(model::chain_entry_ok(ds, p_int, dm[p_int], q - 1));
            if q < dm[p_int].len() {
                assert(model::chain_entry_ok(ds, p_int, dm[p_int], q));
            }
        }
        let p = p_link.idx;
        let plc = t.nodes[p].last_child;
        if plc.is_node(self) {
            let parent_handle = Node { tree_id: self.tree_id, idx: p };
            proof {
                // self is the chain's last entry, so the insertion position
                // is the chain's length: this is exactly an append
                assert(q == dm[p_int].len());
            }
            parent_handle.append_child(t, sibling)
        } else {
            let c = sibling.idx;
            let nxt = t.nodes[self.idx].next_sibling;
            proof {
                assert(q < dm[p_int].len());
                assert(NodeIdx { idx: self.idx } == model::attach_left(dm, p_int, q));
                assert(nxt == model::attach_right(dm, p_int, q));
                model::lemma_attach_wf(ds, dm, p_int, c as int, q);
            }
            t.set_rel(c, p_link, self.as_idx(), nxt);
            t.set_next_link(self.idx, sibling.as_idx());
            t.set_prev_link(nxt.idx, sibling.as_idx());
            proof {
                t.kids@ = model::attach_kids(dm, p_int, c as int, q);
                assert(t.rec() =~= model::attach_at(
                    ds,
                    p_int,
                    c as int,
                    model::attach_left(dm, p_int, q),
                    model::attach_right(dm, p_int, q),
                ));
            }
            sibling
        }
    }

    /// Creates a node for `sibling_value` and inserts it immediately after
    /// this node under this node's parent (which must exist).
    pub fn insert_next_sibling_value<T>(&self, t: &mut Tree<IdType, T>, sibling_value: T) -> (r:
        Node<IdType>)
        requires
            old(t).wf(),
            self.valid(old(t)),
            old(t).rec()[self.idx as int].parent@ is Some,
        ensures
            final(t).wf(),
            final(t).spec_id() == old(t).spec_id(),
            r.tree_id == old(t).spec_id(),
            r.idx == old(t).rec().len(),
            final(t).rec().len() == old(t).rec().len() + 1,
            final(t).rec()[r.idx as int].value == sibling_value,
            final(t).rec()[r.idx as int].parent == old(t).rec()[self.idx as int].parent,
            final(t).rec()[self.idx as int].next_sibling@ == Some(r.idx as int),
            final(t).rec()[r.idx as int].prev_sibling@ == Some(self.idx as int),
            forall|k: int|
                0 <= k < old(t).rec().len() ==> (#[trigger] final(t).rec()[k]).value == old(t).rec()[k].value,
            forall|k: int|
                0 <= k < old(t).rec().len() ==> (#[trigger] final(t).rec()[k]).parent == old(t).rec()[k].parent,
            forall|k: int|
                0 <= k < old(t).rec().len() && model::rooted(old(t).rec(), k) ==> model::rooted(
                    final(t).rec(),
                    k,
                ),
            model::rooted(old(t).rec(), self.idx as int) ==> model::rooted(
                final(t).rec(),
                r.idx as int,
            ),
    {
        let n = t.create_node(sibling_value);
        let ghost mid = *t;
        proof {
            assert(old(t).rec()[self.idx as int] == t.rec()[self.idx as int]);
            assert(model::rec_ok(old(t).rec(), old(t).kids(), self.idx as int));
        }
        self.insert_next_sibling(t, n);
        proof {
            assert(t.rec()[n.idx as int].parent == NodeIdx::spec_at(
                old(t).rec()[self.idx as int].parent@.unwrap(),
            ));
            let p = mid.rec()[self.idx as int].parent@.unwrap();
            if model::rooted(old(t).rec(), self.idx as int) {
                model::lemma_parent_step_to_root(mid.rec(), self.idx as int, p);
            }
            lemma_fresh_attach_rooted(
                mid,
                *t,
                p,
                n.idx as int,
                model::detach_kids(mid.rec(), mid.kids(), n.idx as int)[p].index_of(
                    self.idx as int,
                ) + 1,
            );
        }
        n
    }

    /// Relocates `sibling` (detaching it from wherever it is) to sit
    /// immediately before this node under this node's parent. This node
    /// must have a parent, and a node cannot be inserted beside itself.
    pub fn insert_prev_sibling<T>(&self, t: &mut Tree<IdType, T>, sibling: Node<IdType>) -> (r:
        Node<IdType>)
        requires
            old(t).wf(),
            self.valid(old(t)),
            sibling.valid(old(t)),
            sibling.idx != self.idx,
            old(t).rec()[self.idx as int].parent@ is Some,
        ensures
            r == sibling,
            Self::placed(
                old(t),
                final(t),
                old(t).rec()[self.idx as int].parent@.unwrap(),
                sibling.idx as int,
                model::detach_kids(old(t).rec(), old(t).kids(), sibling.idx as int)[
                    old(t).rec()[self.idx as int].parent@.unwrap()
                ].index_of(self.idx as int),
            ),
            final(t).rec()[self.idx as int].prev_sibling@ == Some(sibling.idx as int),
            final(t).rec()[sibling.idx as int].next_sibling@ == Some(self.idx as int),
    {
        let ghost p_int = old(t).rec()[self.idx as int].parent@.unwrap();
        let p_link = self.get(t).parent;
        sibling.remove(t);
        let ghost ds = t.rec();
        let ghost dm = t.kids();
        let ghost q = dm[p_int].index_of(self.idx as int);
        proof {
            vstd::std_specs::vec::axiom_spec_len(&t.nodes);
            model::lemma_chain_position(ds, dm, self.idx as int);
            assert(model::chain_entry_ok(ds, p_int, dm[p_int], q));
            if q > 0 {
                assert(model::chain_entry_ok(ds, p_int, dm[p_int], q - 1));
            }
        }
        let p = p_link.idx;
        let pfc = t.nodes[p].first_child;
        if pfc.is_node(self) {
            let parent_handle = Node { tree_id: self.tree_id, idx: p };
            proof {
                // self is the chain's first entry, so the insertion position
                // is zero: this is exactly a prepend
                assert(q == 0);
            }
            parent_handle.prepend_child(t, sibling)
        } else {
            let c = sibling.idx;
            let prv = t.nodes[self.idx].prev_sibling;
            proof {
                assert(q > 0);
                assert(prv == model::attach_left(dm, p_int, q));
                assert(NodeIdx { idx: self.idx } == model::attach_right(dm, p_int, q));
                model::lemma_attach_wf(ds, dm, p_int, c as int, q);
            }
            t.set_rel(c, p_link, prv, self.as_idx());
            t.set_prev_link(self.idx, sibling.as_idx());
            t.set_next_link(prv.idx, sibling.as_idx());
            proof {
                t.kids@ = model::attach_kids(dm, p_int, c as int, q);
                assert(t.rec() =~= model::attach_at(
                    ds,
                    p_int,
                    c as int,
                    model::attach_left(dm, p_int, q),
                    model::attach_right(dm, p_int, q),
                ));
            }
            sibling
        }
    }

    /// Creates a node for `sibling_value` and inserts it immediately before
    /// this node under this node's parent (which must exist).
    pub fn insert_prev_sibling_value<T>(&self, t: &mut Tree<IdType, T>, sibling_value: T) -> (r:
        Node<IdType>)
        requires
            old(t).wf(),
            self.valid(old(t)),
            old(t).rec()[self.idx as int].parent@ is Some,
        ensures
            final(t).wf(),
            final(t).spec_id() == old(t).spec_id(),
            r.tree_id == old(t).spec_id(),
            r.idx == old(t).rec().len(),
            final(t).rec().len() == old(t).rec().len() + 1,
            final(t).rec()[r.idx as int].value == sibling_value,
            final(t).rec()[r.idx as int].parent == old(t).rec()[self.idx as int].parent,
            final(t).rec()[self.idx as int].prev_sibling@ == Some(r.idx as int),
            final(t).rec()[r.idx as int].next_sibling@ == Some(self.idx as int),
            forall|k: int|
                0 <= k < old(t).rec().len() ==> (#[trigger] final(t).rec()[k]).value == old(t).rec()[k].value,
            forall|k: int|
                0 <= k < old(t).rec().len() ==> (#[trigger] final(t).rec()[k]).parent == old(t).rec()[k].parent,
            forall|k: int|
                0 <= k < old(t).rec().len() && model::rooted(old(t).rec(), k) ==> model::rooted(
                    final(t).rec(),
                    k,
                ),
            model::rooted(old(t).rec(), self.idx as int) ==> model::rooted(
                final(t).rec(),
                r.idx as int,
            ),
    {
        let n = t.create_node(sibling_value);
        let ghost mid = *t;
        proof {
            assert(old(t).rec()[self.idx as int] == t.rec()[self.idx as int]);
            assert(model::rec_ok(old(t).rec(), old(t).kids(), self.idx as int));
        }
        self.insert_prev_sibling(t, n);
        proof {
            assert(t.rec()[n.idx as int].parent == NodeIdx::spec_at(
                old(t).rec()[self.idx as int].parent@.unwrap(),
            ));
            let p = mid.rec()[self.idx as int].parent@.unwrap();
            if model::rooted(old(t).rec(), self.idx as int) {
                model::lemma_parent_step_to_root(mid.rec(), self.idx as int, p);
            }
            lemma_fresh_attach_rooted(
                mid,
                *t,
                p,
                n.idx as int,
                model::detach_kids(mid.rec(), mid.kids(), n.idx as int)[p].index_of(
                    self.idx as int,
                ),
            );
        }
        n
    }

    /// Creates a node for `child_value` and prepends it as this node's new
    /// first child.
    pub fn prepend_child_value<T>(&self, t: &mut Tree<IdType, T>, child_value: T) -> (r: Node<
        IdType,
    >)
        requires
            old(t).wf(),
            self.valid(old(t)),
        ensures
            final(t).wf(),
            final(t).spec_id() == old(t).spec_id(),
            r.tree_id == old(t).spec_id(),
            r.idx == old(t).rec().len(),
            final(t).rec().len() == old(t).rec().len() + 1,
            final(t).rec()[r.idx as int].value == child_value,
            final(t).rec()[r.idx as int].parent@ == Some(self.idx as int),
            final(t).rec()[self.idx as int].first_child@ == Some(r.idx as int),
            forall|k: int|
                0 <= k < old(t).rec().len() ==> (#[trigger] final(t).rec()[k]).value == old(t).rec()[k].value,
            forall|k: int|
                0 <= k < old(t).rec().len() ==> (#[trigger] final(t).rec()[k]).parent == old(t).rec()[k].parent,
            forall|k: int|
                0 <= k < old(t).rec().len() && model::rooted(old(t).rec(), k) ==> model::rooted(
                    final(t).rec(),
                    k,
                ),
            model::rooted(old(t).rec(), self.idx as int) ==> model::rooted(
                final(t).rec(),
                r.idx as int,
            ),
    {
        let n = t.create_node(child_value);
        let ghost mid = *t;
        self.prepend_child(t, n);
        proof {
            lemma_fresh_attach_rooted(mid, *t, self.idx as int, n.idx as int, 0);
        }
        n
    }
}

/// A flat pass over record positions `0..term_at_idx`, ignoring the link
/// structure entirely. Safe to hold across structural mutation: it tracks
/// nothing but an integer range snapshotted at creation.
pub struct AllNodesIter<IdType: Copy + Eq> {
    pub tree_id: IdType,
    pub cur_idx: usize,
    pub term_at_idx: usize,
}

impl<IdType: Copy + Eq> AllNodesIter<IdType> {
    /// The position cursor has not run past the snapshotted bound.
    pub open spec fn wf_self(&self) -> bool {
        self.cur_idx <= self.term_at_idx
    }

    /// The handle for the next position, or `None` once the snapshotted
    /// bound is reached.
    pub fn next(&mut self) -> (r: Option<Node<IdType>>)
        requires
            old(self).wf_self(),
        ensures
            final(self).wf_self(),
            final(self).tree_id == old(self).tree_id,
            final(self).term_at_idx == old(self).term_at_idx,
            if old(self).cur_idx == old(self).term_at_idx {
                r is None && final(self).cur_idx == old(self).cur_idx
            } else {
                r == Some(Node { tree_id: old(self).tree_id, idx: old(self).cur_idx })
                    && final(self).cur_idx == old(self).cur_idx + 1
            },
    {
        if self.cur_idx == self.term_at_idx {
            None
        } else {
            let n = Node { tree_id: self.tree_id, idx: self.cur_idx };
            self.cur_idx = self.cur_idx + 1;
            Some(n)
        }
    }
}

/// Every handle on the stack addresses a record of `t`.
pub open spec fn stack_ok<IdType: Copy + Eq, T>(
    stack: Seq<Node<IdType>>,
    t: &Tree<IdType, T>,
) -> bool {
    forall|j: int| 0 <= j < stack.len() ==> (#[trigger] stack[j]).valid(t)
}

/// Where a pre-order traversal resumes once a node has neither child nor
/// sibling left: ancestors are popped until one has a next sibling, which
/// becomes the next node (with the popped prefix as the new stack); if
/// none has, the traversal ends.
pub open spec fn backtrack<IdType: Copy + Eq, T>(
    stack: Seq<Node<IdType>>,
    t: &Tree<IdType, T>,
) -> (Seq<Node<IdType>>, Option<Node<IdType>>)
    decreases stack.len(),
{
    if stack.len() == 0 {
        (stack, None)
    } else {
        let p = stack.last();
        let link = t.rec()[p.idx as int].next_sibling@;
        if link is Some {
            (stack.drop_last(), Some(Node { tree_id: p.tree_id, idx: link.unwrap() as usize }))
        } else {
            backtrack(stack.drop_last(), t)
        }
    }
}

/// On a well-formed tree, backtracking keeps every stack entry valid and
/// yields a valid node if it yields one.
pub proof fn lemma_backtrack_ok<IdType: Copy + Eq, T>(stack: Seq<Node<IdType>>, t: &Tree<IdType, T>)
    requires
        t.wf(),
        stack_ok(stack, t),
    ensures
        stack_ok(backtrack(stack, t).0, t),
        backtrack(stack, t).1 is Some ==> backtrack(stack, t).1.unwrap().valid(t)
            && backtrack(stack, t).1.unwrap().tree_id == stack.last().tree_id,
    decreases stack.len(),
{
    if stack.len() > 0 {
        let p = stack.last();
        assert(p.valid(t));
        assert(model::rec_ok(t.rec(), t.kids(), p.idx as int));
        assert(stack_ok(stack.drop_last(), t));
        if !(t.rec()[p.idx as int].next_sibling@ is Some) {
            lemma_backtrack_ok(stack.drop_last(), t);
            if stack.len() > 1 {
                assert(stack.drop_last().last() == stack[stack.len() - 2]);
            }
        }
    }
}

/// Backtracking only ever yields the next sibling of a stacked ancestor:
/// whenever it yields a node, that node is the next sibling of some stack
/// entry, and the entries above that one are discarded.
pub proof fn lemma_backtrack_yields_sibling<IdType: Copy + Eq, T>(
    stack: Seq<Node<IdType>>,
    t: &Tree<IdType, T>,
)
    ensures
        backtrack(stack, t).1 is Some ==> exists|j: int|
            0 <= j < stack.len() && (#[trigger] t.rec()[stack[j].idx as int]).next_sibling@ is Some
                && backtrack(stack, t) == (
                stack.take(j),
                Some(
                    Node {
                        tree_id: stack[j].tree_id,
                        idx: t.rec()[stack[j].idx as int].next_sibling@.unwrap() as usize,
                    },
                ),
            ),
    decreases stack.len(),
{
    if stack.len() > 0 {
        let p = stack.last();
        if t.rec()[p.idx as int].next_sibling@ is Some {
            assert(stack.take(stack.len() - 1) =~= stack.drop_last());
            assert(0 <= stack.len() - 1 < stack.len() && t.rec()[stack[stack.len()
                - 1].idx as int].next_sibling@ is Some && backtrack(stack, t) == (
            stack.take(stack.len() - 1),
            Some(
                Node {
                    tree_id: stack[stack.len() - 1].tree_id,
                    idx: t.rec()[stack[stack.len() - 1].idx as int].next_sibling@.unwrap()
                        as usize,
                },
            ),
            ));
        } else {
            lemma_backtrack_yields_sibling(stack.drop_last(), t);
            if backtrack(stack, t).1 is Some {
                let j = choose|j: int|
                    0 <= j < stack.drop_last().len() && (#[trigger] t.rec()[stack.drop_last()[
                        j
                    ].idx as int]).next_sibling@ is Some && backtrack(stack.drop_last(), t) == (
                        stack.drop_last().take(j),
                        Some(
                            Node {
                                tree_id: stack.drop_last()[j].tree_id,
                                idx: t.rec()[stack.drop_last()[
                                    j
                                ].idx as int].next_sibling@.unwrap() as usize,
                            },
                        ),
                    );
                assert(stack.drop_last().take(j) =~= stack.take(j));
                assert(stack.drop_last()[j] == stack[j]);
            }
        }
    }
}

/// Pruning immediately after visiting a node with children skips that
/// node's entire subtree: the traversal state becomes exactly what
/// backtracking from the node gives, so the next yield (if any) is the
/// node's own next sibling — with the stack as it was before descending —
/// or the next sibling of a stacked ancestor, never anything below the
/// node.
pub proof fn lemma_prune_skips_subtree<IdType: Copy + Eq, T>(
    before: DepthFirstIter<IdType, T>,
    visited: DepthFirstIter<IdType, T>,
    pruned: DepthFirstIter<IdType, T>,
    t: &Tree<IdType, T>,
    n: Node<IdType>,
    d: int,
)
    requires
        before.next == Some(n),
        before.parents@.len() == d,
        t.rec()[n.idx as int].first_child@ is Some,
        dfs_step(before, visited, t, Some((d as usize, n))),
        dfs_discard(visited, pruned, t, d),
    ensures
        (pruned.parents@, pruned.next) == backtrack(before.parents@.push(n), t),
        t.rec()[n.idx as int].next_sibling@ is Some ==> pruned.parents@ == before.parents@
            && pruned.next == Some(
            Node {
                tree_id: n.tree_id,
                idx: t.rec()[n.idx as int].next_sibling@.unwrap() as usize,
            },
        ),
        pruned.next is Some ==> (pruned.next == Some(
            Node {
                tree_id: n.tree_id,
                idx: t.rec()[n.idx as int].next_sibling@.unwrap() as usize,
            },
        ) && t.rec()[n.idx as int].next_sibling@ is Some) || exists|j: int|
            0 <= j < before.parents@.len() && (#[trigger] t.rec()[before.parents@[
                j
            ].idx as int]).next_sibling@ is Some && pruned.next == Some(
                Node {
                    tree_id: before.parents@[j].tree_id,
                    idx: t.rec()[before.parents@[j].idx as int].next_sibling@.unwrap() as usize,
                },
            ),
{
    let stack = before.parents@.push(n);
    assert(visited.parents@ == stack);
    assert(visited.parents@.len() == d + 1);
    assert(visited.parents@.take(d + 1) =~= stack);
    assert((pruned.parents@, pruned.next) == backtrack(stack, t));
    assert(stack.last() == n);
    assert(stack.drop_last() =~= before.parents@);
    if t.rec()[n.idx as int].next_sibling@ is Some {
    } else {
        lemma_backtrack_yields_sibling(before.parents@, t);
    }
}

/// Where a pre-order traversal stands after yielding `n` with ancestor
/// stack `stack`: at `n`'s first child (with `n` stacked), else at `n`'s
/// next sibling, else wherever backtracking leads.
pub open spec fn dfs_advance<IdType: Copy + Eq, T>(
    stack: Seq<Node<IdType>>,
    n: Node<IdType>,
    t: &Tree<IdType, T>,
) -> (Seq<Node<IdType>>, Option<Node<IdType>>) {
    let fc = t.rec()[n.idx as int].first_child@;
    let ns = t.rec()[n.idx as int].next_sibling@;
    if fc is Some {
        (stack.push(n), Some(Node { tree_id: n.tree_id, idx: fc.unwrap() as usize }))
    } else if ns is Some {
        (stack, Some(Node { tree_id: n.tree_id, idx: ns.unwrap() as usize }))
    } else {
        backtrack(stack, t)
    }
}

/// How one `next_value` step relates the iterator states: the yield is the
/// pending node with the stack depth, and the state advances as
/// [`dfs_advance`] says.
pub open spec fn dfs_step<IdType: Copy + Eq, T>(
    pre: DepthFirstIter<IdType, T>,
    post: DepthFirstIter<IdType, T>,
    t: &Tree<IdType, T>,
    r: Option<(usize, Node<IdType>)>,
) -> bool {
    match pre.next {
        None => r is None && post.next is None && post.parents@ == pre.parents@,
        Some(n) => {
            &&& r == Some((pre.parents@.len() as usize, n))
            &&& (post.parents@, post.next) == dfs_advance(pre.parents@, n, t)
        },
    }
}

/// The depth-and-handle pairs a pre-order traversal yields from the given
/// state, for at most `fuel` steps.
pub open spec fn dfs_trace<IdType: Copy + Eq, T>(
    stack: Seq<Node<IdType>>,
    pending: Option<Node<IdType>>,
    t: &Tree<IdType, T>,
    fuel: nat,
) -> Seq<(usize, Node<IdType>)>
    decreases fuel,
{
    if fuel == 0 {
        Seq::empty()
    } else {
        match pending {
            None => Seq::empty(),
            Some(n) => {
                let step = dfs_advance(stack, n, t);
                seq![(stack.len() as usize, n)] + dfs_trace(step.0, step.1, t, (fuel - 1) as nat)
            },
        }
    }
}

/// How pruning relates the iterator states: with more than `cur_depth`
/// ancestors pending, everything deeper is discarded and the traversal
/// resumes as if the ancestor at `cur_depth` had no more children.
pub open spec fn dfs_discard<IdType: Copy + Eq, T>(
    pre: DepthFirstIter<IdType, T>,
    post: DepthFirstIter<IdType, T>,
    t: &Tree<IdType, T>,
    cur_depth: int,
) -> bool {
    if pre.parents@.len() > cur_depth {
        (post.parents@, post.next) == backtrack(pre.parents@.take(cur_depth + 1), t)
    } else {
        post.parents@ == pre.parents@ && post.next == pre.next
    }
}

/// A pre-order depth-first traversal that takes the tree as an explicit
/// argument at each step, so the tree may be mutated between steps (at the
/// documented risk of the traversal going off-track if upcoming links
/// change). All state is the pending node plus the stack of ancestors.
pub struct DepthFirstIter<IdType: Copy + Eq, T> {
    pub next: Option<Node<IdType>>,
    pub parents: Vec<Node<IdType>>,
    pub _marker: core::marker::PhantomData<T>,
}

impl<IdType: Copy + Eq, T> DepthFirstIter<IdType, T> {
    /// The pending node and all stacked ancestors address records of `t`.
    pub open spec fn wf_for(&self, t: &Tree<IdType, T>) -> bool {
        &&& (self.next is Some ==> self.next.unwrap().valid(t))
        &&& stack_ok(self.parents@, t)
    }

    fn new(root: Node<IdType>) -> (r: Self)
        ensures
            r.next == Some(root),
            r.parents@ == Seq::<Node<IdType>>::empty(),
    {
        Self { next: Some(root), parents: Vec::new(), _marker: core::marker::PhantomData }
    }

    /// Pops stacked ancestors, starting from the candidate `parent_opt`,
    /// until one has a next sibling to resume at; ends the traversal when
    /// none has.
    fn resume(&mut self, t: &Tree<IdType, T>, parent_opt: Option<Node<IdType>>)
        requires
            stack_ok(old(self).parents@, t),
            parent_opt is Some ==> parent_opt.unwrap().valid(t),
        ensures
            match parent_opt {
                None => final(self).parents@ == old(self).parents@ && final(self).next is None,
                Some(p) => (final(self).parents@, final(self).next) == backtrack(
                    old(self).parents@.push(p),
                    t,
                ),
            },
    {
        let ghost target: (Seq<Node<IdType>>, Option<Node<IdType>>) = match parent_opt {
            None => (old(self).parents@, None),
            Some(p) => backtrack(old(self).parents@.push(p), t),
        };
        let mut cand = parent_opt;
        while cand.is_some()
            invariant
                stack_ok(self.parents@, t),
                parent_opt is None ==> cand is None,
                target == (match parent_opt {
                    None => (old(self).parents@, None::<Node<IdType>>),
                    Some(p0) => backtrack(old(self).parents@.push(p0), t),
                }),
                match cand {
                    Some(p) => p.valid(t) && backtrack(self.parents@.push(p), t) == target,
                    None => (self.parents@, None::<Node<IdType>>) == target,
                },
            decreases self.parents@.len(), (if cand is Some {
                1int
            } else {
                0int
            }),
        {
            let p = cand.unwrap();
            proof {
                assert(self.parents@.push(p).last() == p);
                assert(self.parents@.push(p).drop_last() =~= self.parents@);
            }
            match p.next_sibling(t) {
                Some(s) => {
                    self.next = Some(s);
                    return ;
                },
                None => {
                    if self.parents.len() > 0 {
                        let ghost pre_stack = self.parents@;
                        cand = self.parents.pop();
                        proof {
                            assert(pre_stack.drop_last().push(pre_stack.last()) =~= pre_stack);
                            assert(pre_stack[pre_stack.len() - 1].valid(t));
                            assert(backtrack(pre_stack, t) == target);
                        }
                    } else {
                        cand = None;
                        proof {
                            assert(self.parents@.len() == 0);
                            assert(backtrack(self.parents@, t) == (
                                self.parents@,
                                None::<Node<IdType>>,
                            ));
                        }
                    }
                },
            }
        }
        self.next = None;
    }

    /// Yields the pending node with its depth and advances: to the node's
    /// first child if it has one (stacking the node), else to its next
    /// sibling, else to the nearest stacked ancestor with a next sibling.
    pub fn next_value(&mut self, t: &Tree<IdType, T>) -> (r: Option<(usize, Node<IdType>)>)
        requires
            old(self).wf_for(t),
        ensures
            dfs_step(*old(self), *final(self), t, r),
            t.wf() ==> final(self).wf_for(t),
    {
        match self.next {
            None => None,
            Some(n) => {
                let depth = self.parents.len();
                let result = Some((depth, n));
                proof {
                    if t.wf() {
                        assert(model::rec_ok(t.rec(), t.kids(), n.idx as int));
                    }
                }
                match n.first_child(t) {
                    Some(child) => {
                        self.parents.push(n);
                        self.next = Some(child);
                    },
                    None => {
                        match n.next_sibling(t) {
                            Some(sib) => {
                                self.next = Some(sib);
                            },
                            None => {
                                let parent_opt = if self.parents.len() > 0 {
                                    self.parents.pop()
                                } else {
                                    None
                                };
                                proof {
                                    if old(self).parents@.len() > 0 {
                                        assert(old(self).parents@.drop_last().push(
                                            old(self).parents@.last(),
                                        ) =~= old(self).parents@);
                                    }
                                }
                                self.resume(t, parent_opt);
                                proof {
                                    if t.wf() {
                                        lemma_backtrack_ok(old(self).parents@, t);
                                    }
                                }
                            },
                        }
                    },
                }
                result
            },
        }
    }

    /// Prunes the traversal: discards every stacked ancestor deeper than
    /// `cur_depth` and resumes as if the ancestor left at depth
    /// `cur_depth` had yielded no further descendants — so the pending
    /// descendants of the most recently yielded node are skipped.
    pub fn discard_child_results(&mut self, t: &Tree<IdType, T>, cur_depth: usize)
        requires
            old(self).wf_for(t),
        ensures
            dfs_discard(*old(self), *final(self), t, cur_depth as int),
            t.wf() ==> final(self).wf_for(t),
            old(self).parents@.len() <= cur_depth ==> *final(self) == *old(self),
    {
        if self.parents.len() > cur_depth {
            let mut parent_opt = self.parents.pop();
            while self.parents.len() > cur_depth
                invariant
                    stack_ok(old(self).parents@, t),
                    cur_depth < old(self).parents@.len(),
                    cur_depth <= self.parents@.len() < old(self).parents@.len(),
                    self.parents@ == old(self).parents@.take(self.parents@.len() as int),
                    parent_opt == Some(old(self).parents@[self.parents@.len() as int]),
                    self.next == old(self).next,
                decreases self.parents@.len(),
            {
                parent_opt = self.parents.pop();
            }
            proof {
                assert(stack_ok(self.parents@, t));
                assert(old(self).parents@.take(cur_depth as int).push(
                    old(self).parents@[cur_depth as int],
                ) =~= old(self).parents@.take(cur_depth + 1));
            }
            self.resume(t, parent_opt);
            proof {
                if t.wf() {
                    assert(stack_ok(old(self).parents@.take(cur_depth + 1), t));
                    lemma_backtrack_ok(old(self).parents@.take(cur_depth + 1), t);
                }
            }
        }
    }
}

impl<IdType: Copy + Eq, T> ContextIterator<Tree<IdType, T>> for DepthFirstIter<IdType, T> {
    type Item = (usize, Node<IdType>);

    open spec fn ok(&self, context: &Tree<IdType, T>) -> bool {
        context.wf() && self.wf_for(context)
    }

    fn next(&mut self, context: &Tree<IdType, T>) -> Option<(usize, Node<IdType>)> {
        self.next_value(context)
    }
}

/// The depth-first traversal with the tree borrowed for the iterator's
/// lifetime: the context-free face of [`DepthFirstIter`].
pub struct ContextFreeDepthFirstIter<'a, IdType: Copy + Eq, T> {
    pub iter: DepthFirstIter<IdType, T>,
    pub context: &'a Tree<IdType, T>,
}

impl<'a, IdType: Copy + Eq, T> ContextFreeDepthFirstIter<'a, IdType, T> {
    /// The borrowed tree is well formed and the traversal state addresses
    /// its records.
    pub open spec fn wf_self(&self) -> bool {
        self.context.wf() && self.iter.wf_for(self.context)
    }

    /// One traversal step; see [`DepthFirstIter::next_value`].
    pub fn next(&mut self) -> (r: Option<(usize, Node<IdType>)>)
        requires
            old(self).wf_self(),
        ensures
            final(self).wf_self(),
            final(self).context == old(self).context,
            dfs_step(old(self).iter, final(self).iter, old(self).context, r),
    {
        self.iter.next_value(self.context)
    }

    /// Prunes the traversal; see [`DepthFirstIter::discard_child_results`].
    pub fn discard_child_results(&mut self, cur_depth: usize)
        requires
            old(self).wf_self(),
        ensures
            final(self).wf_self(),
            final(self).context == old(self).context,
            dfs_discard(old(self).iter, final(self).iter, old(self).context, cur_depth as int),
    {
        self.iter.discard_child_results(self.context, cur_depth)
    }
}

/// Walks next-sibling links, taking the tree as an explicit argument at
/// each step, so the tree may be mutated between steps. If an upcoming
/// sibling is removed or relinked between steps, the walk follows whatever
/// link is then stored: it may skip or repeat, which is the documented
/// trade-off of context-threaded iteration.
pub struct SiblingIter<IdType: Copy + Eq, T> {
    pub next: Option<Node<IdType>>,
    pub _marker: core::marker::PhantomData<T>,
}

impl<IdType: Copy + Eq, T> SiblingIter<IdType, T> {
    /// The pending node, if any, addresses a record of `t`.
    pub open spec fn wf_for(&self, t: &Tree<IdType, T>) -> bool {
        self.next is Some ==> self.next.unwrap().valid(t)
    }

    fn new(next: Option<Node<IdType>>) -> (r: Self)
        ensures
            r.next == next,
    {
        Self { next, _marker: core::marker::PhantomData }
    }

    /// Yields the pending node and moves the cursor to its next sibling.
    pub fn next_value(&mut self, t: &Tree<IdType, T>) -> (r: Option<Node<IdType>>)
        requires
            old(self).wf_for(t),
        ensures
            r == old(self).next,
            match old(self).next {
                None => final(self).next is None,
                Some(n) => link_as_node(
                    t.rec()[n.idx as int].next_sibling,
                    n.tree_id,
                    final(self).next,
                ),
            },
            t.wf() ==> final(self).wf_for(t),
    {
        match self.next {
            Some(n) => {
                proof {
                    if t.wf() {
                        assert(model::rec_ok(t.rec(), t.kids(), n.idx as int));
                    }
                }
                self.next = n.next_sibling(t);
                Some(n)
            },
            None => None,
        }
    }
}

impl<IdType: Copy + Eq, T> ContextIterator<Tree<IdType, T>> for SiblingIter<IdType, T> {
    type Item = Node<IdType>;

    open spec fn ok(&self, context: &Tree<IdType, T>) -> bool {
        context.wf() && self.wf_for(context)
    }

    fn next(&mut self, context: &Tree<IdType, T>) -> Option<Node<IdType>> {
        self.next_value(context)
    }
}

/// Walks next-sibling links with the tree borrowed for the iterator's
/// lifetime, so the structure cannot change underneath it.
pub struct ContextFreeSiblingIter<'a, IdType: Copy + Eq, T> {
    pub next: Option<Node<IdType>>,
    pub tree: &'a Tree<IdType, T>,
}

impl<'a, IdType: Copy + Eq, T> ContextFreeSiblingIter<'a, IdType, T> {
    /// The borrowed tree is well formed and the pending node addresses one
    /// of its records.
    pub open spec fn wf_self(&self) -> bool {
        &&& self.tree.wf()
        &&& (self.next is Some ==> self.next.unwrap().valid(self.tree))
    }

    /// Yields the pending node and moves the cursor to its next sibling.
    pub fn next(&mut self) -> (r: Option<Node<IdType>>)
        requires
            old(self).wf_self(),
        ensures
            final(self).wf_self(),
            final(self).tree == old(self).tree,
            r == old(self).next,
            match old(self).next {
                None => final(self).next is None,
                Some(n) => link_as_node(
                    old(self).tree.rec()[n.idx as int].next_sibling,
                    n.tree_id,
                    final(self).next,
                ),
            },
    {
        match self.next {
            Some(n) => {
                proof {
                    assert(model::rec_ok(self.tree.rec(), self.tree.kids(), n.idx as int));
                }
                let next = n.next_sibling(self.tree);
                self.next = next;
                Some(n)
            },
            None => None,
        }
    }
}

/// Placing a freshly created node (one that no parent link addresses)
/// keeps every other record's ancestor chain intact, and roots the new
/// node through its parent: creating-and-placing can never form a cycle.
pub proof fn lemma_fresh_attach_rooted<IdType: Copy + Eq, T>(
    mid: Tree<IdType, T>,
    fin: Tree<IdType, T>,
    p: int,
    c: int,
    q: int,
)
    requires
        mid.wf(),
        0 <= p < mid.rec().len(),
        0 <= c < mid.rec().len(),
        p != c,
        mid.kids()[c] == Seq::<int>::empty(),
        Node::<IdType>::placed(&mid, &fin, p, c, q),
    ensures
        forall|k: int|
            0 <= k < mid.rec().len() && k != c && model::rooted(mid.rec(), k) ==> model::rooted(
                fin.rec(),
                k,
            ),
        model::rooted(mid.rec(), p) ==> model::rooted(fin.rec(), c),
{
    assert forall|j: int| 0 <= j < mid.rec().len() implies (#[trigger] mid.rec()[j]).parent@
        != Some(c) by {
        assert(model::rec_ok(mid.rec(), mid.kids(), j));
    }
    assert forall|k: int|
        0 <= k < mid.rec().len() && k != c && model::rooted(mid.rec(), k)
        implies model::rooted(fin.rec(), k) by {
        model::lemma_rooted_parents_agree(mid.rec(), mid.kids(), fin.rec(), c, k);
    }
    if model::rooted(mid.rec(), p) {
        assert(fin.rec()[c].parent@ == Some(p));
        model::lemma_rooted_from_parent(fin.rec(), c, p);
    }
}

/// Inserting a sibling after a node that is its parent's last child is
/// behaviourally identical to appending that sibling to the parent: the
/// insertion position the two operations use is the same, so they leave
/// identical stores and identical child chains behind.
pub proof fn lemma_insert_next_on_last_is_append<IdType: Copy + Eq, T>(
    t: &Tree<IdType, T>,
    n: Node<IdType>,
    c: Node<IdType>,
)
    requires
        t.wf(),
        n.valid(t),
        c.valid(t),
        c.idx != n.idx,
        t.rec()[n.idx as int].parent@ is Some,
        t.rec()[t.rec()[n.idx as int].parent@.unwrap()].last_child@ == Some(n.idx as int),
    ensures
        ({
            let p = t.rec()[n.idx as int].parent@.unwrap();
            let dm = model::detach_kids(t.rec(), t.kids(), c.idx as int);
            let q_insert = dm[p].index_of(n.idx as int) + 1;
            let q_append = dm[p].len() as int;
            &&& q_insert == q_append
            &&& Node::<IdType>::placed_rec(t, p, c.idx as int, q_insert) == Node::<
                IdType,
            >::placed_rec(t, p, c.idx as int, q_append)
            &&& Node::<IdType>::placed_kids(t, p, c.idx as int, q_insert) == Node::<
                IdType,
            >::placed_kids(t, p, c.idx as int, q_append)
        }),
{
    model::lemma_insert_after_last_is_append(t.rec(), t.kids(), n.idx as int, c.idx as int);
}

/// How a stored link is surfaced as an optional handle tagged with
/// `tree_id`: the two are absent together, and present together with the
/// same position.
pub open spec fn link_as_node<IdType: Copy + Eq>(
    link: NodeIdx,
    tree_id: IdType,
    r: Option<Node<IdType>>,
) -> bool {
    match r {
        None => link@ is None,
        Some(n) => link@ == Some(n.idx as int) && n.tree_id == tree_id,
    }
}

} // verus!
