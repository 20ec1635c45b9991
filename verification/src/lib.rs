//! Traits that describe EVAL-LINK-UPDATE structures, and a forest that compresses paths when it
//! evaluates.
//!
//! Given an associative operation, the three operations on a forest are:
//! - EVAL(n): find the root `r` of the tree that holds `n` and combine the values on the path
//!   from `r` to `n`;
//! - LINK(n, m): find the root `r` of the tree that holds `m` and make it a child of `n`;
//! - UPDATE(n, v): find the root `r` of the tree that holds `n` and replace its value by `v`.
//!
//! [`CompressedForest`] keeps its nodes as a sequence of records, its view. The module
//! [`model`] says what each operation returns and what it makes of that sequence, and the
//! module [`laws`] what follows for the values that nodes evaluate to.
use vstd::prelude::*;

mod forest;
pub use forest::CompressedForest;
pub use forest::Index;
mod node;
pub use node::Node;
/// What holds of the operations of a forest.
pub mod laws;
/// Facts on which the proofs of the forest and of its laws rest.
pub mod lemmas;
/// The forest as a sequence of records, and what each operation makes of it.
pub mod model;
/// Collection of basic types that define standard associative operations.
pub mod operation;
pub use operation::AssociativeOperation;

verus! {

/// Takes the value out of a result that cannot be an error.
///
/// `std::convert::Infallible` is an enum without variants, so a `Result` with that error type
/// is always `Ok`: the contract says so, and that the value given back is the one it held.
#[verifier::external_body]
fn unwrap_infallible<T>(res: Result<T, std::convert::Infallible>) -> (value: T)
    ensures
        res === Ok(value),
{
    match res {
        Ok(value) => value,
        Err(never) => match never {},
    }
}

/// An EVAL-LINK-UPDATE structure.
///
/// Each operation comes with two predicates that an implementation defines: `.._requires`, on
/// the structure and the arguments before the call, and `.._ensures`, which relates them to the
/// structure after the call and to what the call returns. Where an implementation defines
/// none, nothing is asked and nothing is promised.
pub trait EvalLinkUpdate {
    /// The type used to identify nodes.
    type Id;

    /// The value type associated to nodes.
    type Value;

    /// The associative operation used to combine values.
    type Operation: AssociativeOperation<Self::Value>;

    /// What must hold before `new_root`.
    open spec fn new_root_requires(&self, value: Self::Value) -> bool {
        true
    }

    /// What `new_root` leaves and returns.
    open spec fn new_root_ensures(&self, value: Self::Value, after: Self, id: Self::Id) -> bool where
        Self: Sized,
     {
        true
    }

    /// What must hold before `try_eval` and `eval`.
    open spec fn eval_requires(&self, id: Self::Id) -> bool {
        true
    }

    /// What `try_eval` leaves and returns.
    open spec fn eval_ensures(
        &self,
        id: Self::Id,
        after: Self,
        result: Result<
            Self::Value,
            <Self::Operation as AssociativeOperation<Self::Value>>::Error,
        >,
    ) -> bool where Self: Sized {
        true
    }

    /// What must hold before `try_link` and `link`.
    open spec fn link_requires(&self, id_a: Self::Id, id_b: Self::Id) -> bool {
        true
    }

    /// What `try_link` leaves and returns.
    open spec fn link_ensures(
        &self,
        id_a: Self::Id,
        id_b: Self::Id,
        after: Self,
        result: Result<(), <Self::Operation as AssociativeOperation<Self::Value>>::Error>,
    ) -> bool where Self: Sized {
        true
    }

    /// What must hold before `try_update` and `update`.
    open spec fn update_requires(&self, id: Self::Id, value: Self::Value) -> bool {
        true
    }

    /// What `try_update` leaves and returns.
    open spec fn update_ensures(
        &self,
        id: Self::Id,
        value: Self::Value,
        after: Self,
        result: Result<(), <Self::Operation as AssociativeOperation<Self::Value>>::Error>,
    ) -> bool where Self: Sized {
        true
    }

    /// Creates a new tree root in the forest with the given value.
    #[must_use]
    fn new_root(&mut self, value: Self::Value) -> (id: Self::Id) where Self: Sized
        requires
            old(self).new_root_requires(value),
        ensures
            old(self).new_root_ensures(value, *final(self), id),
    ;

    /// Computes the value of the node identified by `id`.
    ///
    /// Returns `Err` if the operation fails.
    fn try_eval(&mut self, id: Self::Id) -> (result: Result<
        Self::Value,
        <Self::Operation as AssociativeOperation<Self::Value>>::Error,
    >) where Self: Sized
        requires
            old(self).eval_requires(id),
        ensures
            old(self).eval_ensures(id, *final(self), result),
    ;

    /// Infallible version of `try_eval`, for an operation whose error is
    /// `std::convert::Infallible`.
    #[inline]
    fn eval(&mut self, id: Self::Id) -> (value: Self::Value) where
        Self: Sized,
        Self::Operation: AssociativeOperation<Self::Value, Error = std::convert::Infallible>,

        requires
            old(self).eval_requires(id),
        ensures
            old(self).eval_ensures(id, *final(self), Ok(value)),
    {
        unwrap_infallible(self.try_eval(id))
    }

    /// Links the root of the tree that contains the node identified by `id_b` to the node
    /// identified by `id_a`.
    ///
    /// Returns `Err` if the operation fails.
    fn try_link(&mut self, id_a: Self::Id, id_b: Self::Id) -> (result: Result<
        (),
        <Self::Operation as AssociativeOperation<Self::Value>>::Error,
    >) where Self: Sized
        requires
            old(self).link_requires(id_a, id_b),
        ensures
            old(self).link_ensures(id_a, id_b, *final(self), result),
    ;

    /// Infallible version of `try_link`, for an operation whose error is
    /// `std::convert::Infallible`.
    #[inline]
    fn link(&mut self, id_a: Self::Id, id_b: Self::Id) where
        Self: Sized,
        Self::Operation: AssociativeOperation<Self::Value, Error = std::convert::Infallible>,

        requires
            old(self).link_requires(id_a, id_b),
        ensures
            old(self).link_ensures(id_a, id_b, *final(self), Ok(())),
    {
        unwrap_infallible(self.try_link(id_a, id_b));
    }

    /// Updates the value of the root of the tree that contains the node identified by `id`.
    ///
    /// Returns `Err` if the operation fails.
    fn try_update(&mut self, id: Self::Id, value: Self::Value) -> (result: Result<
        (),
        <Self::Operation as AssociativeOperation<Self::Value>>::Error,
    >) where Self: Sized
        requires
            old(self).update_requires(id, value),
        ensures
            old(self).update_ensures(id, value, *final(self), result),
    ;

    /// Infallible version of `try_update`, for an operation whose error is
    /// `std::convert::Infallible`.
    #[inline]
    fn update(&mut self, id: Self::Id, value: Self::Value) where
        Self: Sized,
        Self::Operation: AssociativeOperation<Self::Value, Error = std::convert::Infallible>,

        requires
            old(self).update_requires(id, value),
        ensures
            old(self).update_ensures(id, value, *final(self), Ok(())),
    {
        unwrap_infallible(self.try_update(id, value));
    }
}

} // verus!
