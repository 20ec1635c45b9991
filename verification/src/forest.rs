use vstd::prelude::*;
use std::marker::PhantomData;
use crate::lemmas::lemma_compressed_at;
use crate::lemmas::lemma_compressed_root;
use crate::lemmas::lemma_compressed_step;
use crate::lemmas::lemma_link_steps;
use crate::lemmas::lemma_push_root;
use crate::lemmas::lemma_ranking;
use crate::lemmas::lemma_root_value;
use crate::model::chain_req;
use crate::model::compressed;
use crate::model::compression_outcome;
use crate::model::eval_req;
use crate::model::evaluation;
use crate::model::link_outcome;
use crate::model::link_req;
use crate::model::linked;
use crate::model::ranked;
use crate::model::ranking;
use crate::model::root_of;
use crate::model::updated;
use crate::model::well_formed;
use crate::node::Node;
use crate::operation::AssociativeOperation;
use crate::operation::DefaultOperation;
use crate::EvalLinkUpdate;

verus! {

/// Identifies a node of a forest of type `F`.
///
/// An index is only ever made by the forest that owns the node, and is a position in it.
#[derive(Debug)]
pub struct Index<F>(usize, PhantomData<F>);

impl<F> View for Index<F> {
    type V = usize;

    /// The position of the node in its forest.
    closed spec fn view(&self) -> usize {
        self.0
    }
}

impl<F> From<Index<F>> for usize {
    fn from(i: Index<F>) -> (position: usize)
        ensures
            position == i@,
    {
        i.0
    }
}

impl<F> vstd::std_specs::convert::FromSpecImpl<Index<F>> for usize {
    open spec fn obeys_from_spec() -> bool {
        true
    }

    open spec fn from_spec(i: Index<F>) -> usize {
        i@
    }
}

impl<F> Clone for Index<F> {
    fn clone(&self) -> (copy: Self)
        ensures
            copy == *self,
    {
        Self(self.0, PhantomData)
    }
}

impl<F> Copy for Index<F> {

}

impl<F> PartialEq for Index<F> {
    fn eq(&self, other: &Self) -> (equal: bool) {
        self.0 == other.0
    }
}

impl<F> vstd::std_specs::cmp::PartialEqSpecImpl for Index<F> {
    open spec fn obeys_eq_spec() -> bool {
        true
    }

    open spec fn eq_spec(&self, other: &Self) -> bool {
        self@ == other@
    }
}

impl<F> Eq for Index<F> {

}

impl<F> PartialOrd for Index<F> {
    fn partial_cmp(&self, other: &Self) -> (order: Option<std::cmp::Ordering>) {
        self.0.partial_cmp(&other.0)
    }
}

impl<F> vstd::std_specs::cmp::PartialOrdSpecImpl for Index<F> {
    open spec fn obeys_partial_cmp_spec() -> bool {
        true
    }

    open spec fn partial_cmp_spec(&self, other: &Self) -> Option<std::cmp::Ordering> {
        if self@ < other@ {
            Some(std::cmp::Ordering::Less)
        } else if self@ == other@ {
            Some(std::cmp::Ordering::Equal)
        } else {
            Some(std::cmp::Ordering::Greater)
        }
    }
}

/// A simple EVAL-LINK-UPDATE forest structure that performs (unbalanced) path compression.
///
/// `V` is the value type associated to nodes in the forest and `O` is the associative operation
/// applied when evaluating.
#[derive(Debug)]
pub struct CompressedForest<V, O = DefaultOperation> where O: 'static {
    nodes: Vec<Node<V>>,
    _op: PhantomData<O>,
}

impl<V, O> View for CompressedForest<V, O> {
    type V = Seq<Node<V>>;

    /// The records of the forest, in the order in which the nodes were made.
    closed spec fn view(&self) -> Seq<Node<V>> {
        self.nodes@
    }
}

impl<V, O> Clone for CompressedForest<V, O> where V: Clone {
    /// A forest of the same shape whose values are clones of the values of this one.
    fn clone(&self) -> (copy: Self)
        ensures
            copy@.len() == self@.len(),
            forall|i: int|
                0 <= i < self@.len() ==> (#[trigger] copy@[i]).parent == self@[i].parent && cloned::<V>(
                    self@[i].value,
                    copy@[i].value,
                ),
            well_formed(self@) ==> well_formed(copy@),
    {
        let copy = Self { nodes: self.nodes.clone(), _op: PhantomData };
        proof {
            if well_formed(self@) {
                assert(ranked(copy@, ranking(self@))) by {
                    assert forall|i: int| 0 <= i < copy@.len() implies ((#[trigger] copy@[i]).parent
                        == self@[i].parent) by {
                        assert(cloned::<Node<V>>(self.nodes@[i], copy.nodes@[i]));
                    }
                }
            }
        }
        copy
    }
}

impl<V, O> Default for CompressedForest<V, O> where V: Clone, O: AssociativeOperation<V> {
    #[inline]
    fn default() -> (forest: Self)
        ensures
            forest@ == Seq::<Node<V>>::empty(),
            forest.wf(),
    {
        let forest = Self { nodes: vec![], _op: PhantomData };
        proof {
            assert(ranked(forest@, Seq::<nat>::empty()));
        }
        forest
    }
}

impl<V, O> CompressedForest<V, O> where V: Clone, O: AssociativeOperation<V> {
    /// Whether the records form a forest.
    pub open spec fn wf(&self) -> bool {
        well_formed(self@)
    }

    /// Creates a new empty forest.
    #[inline]
    #[must_use]
    pub fn new() -> (forest: Self)
        ensures
            forest@ == Seq::<Node<V>>::empty(),
            forest.wf(),
    {
        Self::default()
    }

    /// Creates a new empty forest with a given capacity.
    ///
    /// The capacity only sizes the storage: the forest is empty whatever it is.
    #[inline]
    #[must_use]
    pub fn with_capacity(capacity: usize) -> (forest: Self)
        ensures
            forest@ == Seq::<Node<V>>::empty(),
            forest.wf(),
    {
        let forest = Self { nodes: Vec::with_capacity(capacity), _op: PhantomData };
        proof {
            assert(ranked(forest@, Seq::<nat>::empty()));
        }
        forest
    }

    /// Reserve enough space for a given number of nodes.
    ///
    /// Only the storage grows: no node and no value changes.
    #[inline]
    pub fn reserve(&mut self, additional: usize)
        ensures
            final(self)@ == old(self)@,
    {
        self.nodes.reserve(additional);
    }

    /// Compresses the chain of `key`, which is not a root: every record on it becomes a child
    /// of the root and stores the fold of the chain down to it, as far as the operation
    /// succeeds on the way down from the root.
    fn compress(&mut self, key: usize) -> (result: Result<(), O::Error>)
        requires
            old(self).wf(),
            key < old(self)@.len(),
            old(self)@[key as int].parent is Some,
            chain_req::<V, O>(old(self)@, key as int),
        ensures
            final(self).wf(),
            final(self)@ == compressed::<V, O>(old(self)@, key as int),
            result == compression_outcome::<V, O>(old(self)@, key as int),
        decreases ranking(old(self)@)[key as int],
    {
        proof {
            lemma_ranking(self@);
            lemma_compressed_step::<V, O>(self@, key as int);
        }
        // assume it's not a root
        let parent_key = self.nodes[key].parent().unwrap();
        if !self.nodes[parent_key].is_root() {
            match self.compress(parent_key) {
                Ok(()) => {},
                Err(e) => {
                    return Err(e);
                },
            }
            let merged = match O::associate(self.nodes[parent_key].value(), self.nodes[key].value()) {
                Ok(merged) => merged,
                Err(e) => {
                    return Err(e);
                },
            };
            let root_key = self.nodes[parent_key].parent().unwrap();
            self.nodes[key].set_value(merged);
            self.nodes[key].set_parent(root_key);
            assert(self@ =~= compressed::<V, O>(old(self)@, key as int));
        }
        Ok(())
    }
}

impl<V, O> EvalLinkUpdate for CompressedForest<V, O> where
    V: Clone,
    O: 'static + AssociativeOperation<V>,
 {
    type Id = Index<Self>;

    type Value = V;

    type Operation = O;

    /// A root can be added to any forest.
    open spec fn new_root_requires(&self, value: V) -> bool {
        self.wf()
    }

    /// The new root is the last record; it has no parent and stores `value`.
    open spec fn new_root_ensures(&self, value: V, after: Self, id: Index<Self>) -> bool {
        &&& after.wf()
        &&& after@ == self@.push(Node { parent: None, value })
        &&& id@ == self@.len()
    }

    /// `id` is a node of the forest, and the operation may be applied along its chain and to
    /// the value of its root.
    open spec fn eval_requires(&self, id: Index<Self>) -> bool {
        &&& self.wf()
        &&& id@ < self@.len()
        &&& eval_req::<V, O>(self@, id@ as int)
    }

    /// The chain of `id` is compressed as far as the operation succeeds. For a root the result
    /// is a clone of its value; for any other node it is the evaluation of the node, or the
    /// failure met.
    open spec fn eval_ensures(&self, id: Index<Self>, after: Self, result: Result<V, O::Error>) -> bool {
        &&& after.wf()
        &&& after@ == compressed::<V, O>(self@, id@ as int)
        &&& self@[id@ as int].parent is Some ==> result == evaluation::<V, O>(
            self@,
            id@ as int,
        )
        &&& self@[id@ as int].parent is None ==> (result matches Ok(value) && cloned::<V>(
            self@[id@ as int].value,
            value,
        ))
    }

    /// `id_a` and `id_b` are nodes of different trees, and the operation may be applied along
    /// both chains and to the fold of `id_a` and the value of the root of `id_b`.
    open spec fn link_requires(&self, id_a: Index<Self>, id_b: Index<Self>) -> bool {
        &&& self.wf()
        &&& id_a@ < self@.len()
        &&& id_b@ < self@.len()
        &&& root_of(self@, id_a@ as int) != root_of(self@, id_b@ as int)
        &&& link_req::<V, O>(self@, id_a@ as int, id_b@ as int)
    }

    /// The forest is the linked one, and the result the first failure met, if there is one.
    open spec fn link_ensures(
        &self,
        id_a: Index<Self>,
        id_b: Index<Self>,
        after: Self,
        result: Result<(), O::Error>,
    ) -> bool {
        &&& after.wf()
        &&& after@ == linked::<V, O>(self@, id_a@ as int, id_b@ as int)
        &&& result == link_outcome::<V, O>(self@, id_a@ as int, id_b@ as int)
    }

    /// `id` is a node of the forest, and the operation may be applied along its chain.
    open spec fn update_requires(&self, id: Index<Self>, value: V) -> bool {
        &&& self.wf()
        &&& id@ < self@.len()
        &&& chain_req::<V, O>(self@, id@ as int)
    }

    /// The forest is the updated one, and the result the failure of the compression, if there
    /// is one.
    open spec fn update_ensures(
        &self,
        id: Index<Self>,
        value: V,
        after: Self,
        result: Result<(), O::Error>,
    ) -> bool {
        &&& after.wf()
        &&& after@ == updated::<V, O>(self@, id@ as int, value)
        &&& result == compression_outcome::<V, O>(self@, id@ as int)
    }

    fn new_root(&mut self, value: V) -> (id: Index<Self>) {
        let index = self.nodes.len();
        self.nodes.push(Node::new_root(value));
        proof {
            // the vector has taken the record, so its new length is a usize
            assert(self.nodes.len() == old(self)@.len() + 1);
            lemma_push_root(old(self)@, value);
        }
        Index(index, PhantomData)
    }

    fn try_link(&mut self, id_a: Index<Self>, id_b: Index<Self>) -> (result: Result<(), O::Error>) {
        let id_a: usize = id_a.0;
        let id_b: usize = id_b.0;
        let ghost first = compressed::<V, O>(self@, id_a as int);
        let ghost both = compressed::<V, O>(first, id_b as int);
        proof {
            lemma_link_steps::<V, O>(self@, id_a as int, id_b as int);
        }
        let root_a_key = if self.nodes[id_a].is_root() {
            id_a
        } else {
            match self.compress(id_a) {
                Ok(()) => {},
                Err(e) => {
                    return Err(e);
                },
            }
            self.nodes[id_a].parent().unwrap()
        };
        assert(self@ == first);
        let root_b_key = if self.nodes[id_b].is_root() {
            id_b
        } else {
            match self.compress(id_b) {
                Ok(()) => {},
                Err(e) => {
                    return Err(e);
                },
            }
            self.nodes[id_b].parent().unwrap()
        };
        assert(self@ == both);
        // if "node a" is not the root of its tree, the value of "root b" takes the fold of
        // "node a" in front, and only then "root b" gets its parent
        if root_a_key != id_a {
            let new_value = match O::associate(
                self.nodes[id_a].value(),
                self.nodes[root_b_key].value(),
            ) {
                Ok(new_value) => new_value,
                Err(e) => {
                    return Err(e);
                },
            };
            self.nodes[root_b_key].set_value(new_value);
        }
        self.nodes[root_b_key].set_parent(root_a_key);
        assert(self@ =~= linked::<V, O>(old(self)@, id_a as int, id_b as int));
        Ok(())
    }

    fn try_update(&mut self, id: Index<Self>, value: V) -> (result: Result<(), O::Error>) {
        let key: usize = id.0;
        proof {
            lemma_compressed_at::<V, O>(self@, key as int);
            lemma_root_value::<V, O>(
                compressed::<V, O>(self@, key as int),
                root_of(self@, key as int),
                value,
                key as int,
            );
        }
        if self.nodes[key].is_root() {
            proof {
                lemma_compressed_root::<V, O>(self@, key as int);
            }
            self.nodes[key].set_value(value);
        } else {
            match self.compress(key) {
                Ok(()) => {},
                Err(e) => {
                    return Err(e);
                },
            }
            // node is not root and compress ensures parent is root
            let parent_key = self.nodes[key].parent().unwrap();
            self.nodes[parent_key].set_value(value);
        }
        assert(self@ =~= updated::<V, O>(old(self)@, key as int, value));
        Ok(())
    }

    fn try_eval(&mut self, id: Index<Self>) -> (result: Result<V, O::Error>) {
        let id: usize = id.0;
        proof {
            lemma_compressed_at::<V, O>(self@, id as int);
        }
        if !self.nodes[id].is_root() {
            match self.compress(id) {
                Ok(()) => {},
                Err(e) => {
                    return Err(e);
                },
            }
        } else {
            proof {
                lemma_compressed_root::<V, O>(self@, id as int);
            }
        }
        let node = &self.nodes[id];
        match node.parent() {
            None => Ok(node.value().clone()),
            Some(parent_key) => {
                let parent = &self.nodes[*parent_key];
                O::associate(parent.value(), node.value())
            },
        }
    }
}

} // verus!
