use vstd::prelude::*;

verus! {

/// One record of a forest: the position of the parent, if there is one, and the stored value.
///
/// A record without a parent is the root of its tree.
#[derive(Debug)]
pub struct Node<V> {
    pub parent: Option<usize>,
    pub value: V,
}

impl<V: Clone> Clone for Node<V> {
    /// A record with the same parent and a clone of the value.
    fn clone(&self) -> (copy: Self)
        ensures
            copy.parent == self.parent,
            cloned::<V>(self.value, copy.value),
    {
        Self { parent: self.parent, value: self.value.clone() }
    }
}

impl<V> Node<V> {
    /// A record without a parent that stores `value`.
    pub fn new_root(value: V) -> (node: Self)
        ensures
            node == (Node { parent: None, value }),
    {
        Self { parent: None, value }
    }

    /// Puts the record under `parent`; the stored value stays.
    pub fn set_parent(&mut self, parent: usize)
        ensures
            *final(self) == (Node { parent: Some(parent), value: old(self).value }),
    {
        self.parent = Some(parent);
    }

    /// Replaces the stored value; the parent stays.
    pub fn set_value(&mut self, value: V)
        ensures
            *final(self) == (Node { parent: old(self).parent, value }),
    {
        self.value = value;
    }

    /// The position of the parent, `None` for a root.
    pub fn parent(&self) -> (parent: &Option<usize>)
        ensures
            *parent == self.parent,
    {
        &self.parent
    }

    /// The stored value.
    pub fn value(&self) -> (value: &V)
        ensures
            *value == self.value,
    {
        &self.value
    }

    /// Whether the record has no parent.
    pub fn is_root(&self) -> (root: bool)
        ensures
            root == (self.parent is None),
    {
        self.parent.is_none()
    }
}

} // verus!
