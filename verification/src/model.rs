//! The forest as a sequence of records, and what each operation makes of it.
//!
//! All functions here take the records of a forest and positions in it. The contracts of
//! [`crate::CompressedForest`] are stated over them.
use vstd::prelude::*;
use crate::node::Node;
use crate::operation::AssociativeOperation;

verus! {

/// Whether `rank` has every parent in range and strictly below its child, and every position
/// fits in a `usize`.
pub open spec fn ranked<V>(nodes: Seq<Node<V>>, rank: Seq<nat>) -> bool {
    &&& rank.len() == nodes.len()
    &&& nodes.len() <= usize::MAX
    &&& forall|i: int|
        0 <= i < nodes.len() ==> ((#[trigger] nodes[i]).parent matches Some(p) ==> p < nodes.len()
            && rank[p as int] < rank[i])
}

/// Whether the records form a forest: every parent is a record of the sequence, no chain of
/// parents returns to where it began, and every position fits in a `usize`.
pub open spec fn well_formed<V>(nodes: Seq<Node<V>>) -> bool {
    exists|rank: Seq<nat>| ranked(nodes, rank)
}

/// Some ranking of a forest, the measure by which chains of parents are walked.
pub open spec fn ranking<V>(nodes: Seq<Node<V>>) -> Seq<nat> {
    choose|rank: Seq<nat>| ranked(nodes, rank)
}

/// The root of the tree that holds `k`.
pub open spec fn root_of<V>(nodes: Seq<Node<V>>, k: int) -> int
    decreases ranking(nodes)[k],
    when well_formed(nodes) && 0 <= k < nodes.len()
{
    match nodes[k].parent {
        None => k,
        Some(p) => root_of(nodes, p as int),
    }
}

/// Whether `j` lies on the chain of parents that leads from `k` to its root, both ends included.
pub open spec fn on_path<V>(nodes: Seq<Node<V>>, j: int, k: int) -> bool
    decreases ranking(nodes)[k],
    when well_formed(nodes) && 0 <= k < nodes.len()
{
    j == k || match nodes[k].parent {
        None => false,
        Some(p) => on_path(nodes, j, p as int),
    }
}

/// The stored values from the child of the root down to `k`, combined from left to right.
/// For a root, and for a child of a root, this is the stored value itself.
pub open spec fn chain_fold<V, O: AssociativeOperation<V>>(nodes: Seq<Node<V>>, k: int) -> Result<
    V,
    O::Error,
>
    decreases ranking(nodes)[k],
    when well_formed(nodes) && 0 <= k < nodes.len()
{
    match nodes[k].parent {
        None => Ok(nodes[k].value),
        Some(p) => if nodes[p as int].parent is None {
            Ok(nodes[k].value)
        } else {
            match chain_fold::<V, O>(nodes, p as int) {
                Ok(above) => O::associate_spec(above, nodes[k].value),
                Err(e) => Err(e),
            }
        },
    }
}

/// Whether the operation may be applied to every pair that `chain_fold` combines for `k`.
pub open spec fn chain_req<V, O: AssociativeOperation<V>>(nodes: Seq<Node<V>>, k: int) -> bool
    decreases ranking(nodes)[k],
    when well_formed(nodes) && 0 <= k < nodes.len()
{
    match nodes[k].parent {
        None => true,
        Some(p) => nodes[p as int].parent is None || (chain_req::<V, O>(nodes, p as int) && (
        chain_fold::<V, O>(nodes, p as int) matches Ok(above) ==> O::associate_req(
            above,
            nodes[k].value,
        ))),
    }
}

/// What evaluating `k` gives: for a root its stored value, for any other record the value of
/// its root combined with the fold of the chain below the root.
pub open spec fn evaluation<V, O: AssociativeOperation<V>>(nodes: Seq<Node<V>>, k: int) -> Result<
    V,
    O::Error,
> {
    if nodes[k].parent is None {
        Ok(nodes[k].value)
    } else {
        match chain_fold::<V, O>(nodes, k) {
            Ok(below) => O::associate_spec(nodes[root_of(nodes, k)].value, below),
            Err(e) => Err(e),
        }
    }
}

/// `chain_fold` with a function on all pairs of values in place of the operation.
pub open spec fn chain_fold_by<V>(nodes: Seq<Node<V>>, total: spec_fn(V, V) -> V, k: int) -> V
    decreases ranking(nodes)[k],
    when well_formed(nodes) && 0 <= k < nodes.len()
{
    match nodes[k].parent {
        None => nodes[k].value,
        Some(p) => if nodes[p as int].parent is None {
            nodes[k].value
        } else {
            total(chain_fold_by(nodes, total, p as int), nodes[k].value)
        },
    }
}

/// `evaluation` with a function on all pairs of values in place of the operation.
pub open spec fn evaluation_by<V>(nodes: Seq<Node<V>>, total: spec_fn(V, V) -> V, k: int) -> V {
    if nodes[k].parent is None {
        nodes[k].value
    } else {
        total(nodes[root_of(nodes, k)].value, chain_fold_by(nodes, total, k))
    }
}

/// Whether the operation may be applied to every pair that evaluating `k` combines.
pub open spec fn eval_req<V, O: AssociativeOperation<V>>(nodes: Seq<Node<V>>, k: int) -> bool {
    &&& chain_req::<V, O>(nodes, k)
    &&& nodes[k].parent is Some ==> (chain_fold::<V, O>(nodes, k) matches Ok(below)
        ==> O::associate_req(nodes[root_of(nodes, k)].value, below))
}

/// The forest after the chain of `k` has been compressed.
///
/// Every record on the chain that is not the root, and whose fold succeeds, becomes a child of
/// the root and stores that fold. Where the fold of a record fails, so do the folds of the
/// records below it: they all stay as they are, and so does every record off the chain.
pub open spec fn compressed<V, O: AssociativeOperation<V>>(nodes: Seq<Node<V>>, k: int) -> Seq<
    Node<V>,
> {
    Seq::new(
        nodes.len(),
        |j: int|
            if on_path(nodes, j, k) && nodes[j].parent is Some && chain_fold::<V, O>(nodes, j) is Ok {
                Node {
                    parent: Some(root_of(nodes, k) as usize),
                    value: chain_fold::<V, O>(nodes, j)->Ok_0,
                }
            } else {
                nodes[j]
            },
    )
}

/// What compressing the chain of `k` returns: the first failure met on the way down from the
/// root, if there is one.
pub open spec fn compression_outcome<V, O: AssociativeOperation<V>>(
    nodes: Seq<Node<V>>,
    k: int,
) -> Result<(), O::Error> {
    match chain_fold::<V, O>(nodes, k) {
        Ok(_) => Ok(()),
        Err(e) => Err(e),
    }
}

/// The forest after `value` has been assigned through `k`: the chain of `k` is compressed and,
/// if that succeeds, the root of its tree stores `value`.
pub open spec fn updated<V, O: AssociativeOperation<V>>(nodes: Seq<Node<V>>, k: int, value: V) -> Seq<
    Node<V>,
> {
    if chain_fold::<V, O>(nodes, k) is Ok {
        compressed::<V, O>(nodes, k).update(root_of(nodes, k), Node { parent: None, value })
    } else {
        compressed::<V, O>(nodes, k)
    }
}

/// Whether the operation may be applied to every pair that linking the tree of `b` to `a`
/// combines.
pub open spec fn link_req<V, O: AssociativeOperation<V>>(nodes: Seq<Node<V>>, a: int, b: int) -> bool {
    &&& chain_req::<V, O>(nodes, a)
    &&& chain_fold::<V, O>(nodes, a) matches Ok(at) ==> {
        &&& chain_req::<V, O>(nodes, b)
        &&& nodes[a].parent is Some && chain_fold::<V, O>(nodes, b) is Ok ==> O::associate_req(
            at,
            nodes[root_of(nodes, b)].value,
        )
    }
}

/// What linking the tree of `b` to `a` returns: the failure of compressing `a`, else that of
/// compressing `b`, else that of combining the fold of `a` with the value of the root of `b`,
/// which is only computed where `a` is not a root.
pub open spec fn link_outcome<V, O: AssociativeOperation<V>>(
    nodes: Seq<Node<V>>,
    a: int,
    b: int,
) -> Result<(), O::Error> {
    match chain_fold::<V, O>(nodes, a) {
        Err(e) => Err(e),
        Ok(at) => match chain_fold::<V, O>(nodes, b) {
            Err(e) => Err(e),
            Ok(_) => if nodes[a].parent is None {
                Ok(())
            } else {
                match O::associate_spec(at, nodes[root_of(nodes, b)].value) {
                    Ok(_) => Ok(()),
                    Err(e) => Err(e),
                }
            },
        },
    }
}

/// The forest after the tree of `b` has been linked to `a`.
///
/// Both chains are compressed, that of `a` first. If all succeeds, the root of `b` becomes a
/// child of the root of `a`; where `a` is not that root, the new child stores the fold of `a`
/// combined with its former value. If a step fails, the steps before it stay and the root of
/// `b` is untouched.
pub open spec fn linked<V, O: AssociativeOperation<V>>(nodes: Seq<Node<V>>, a: int, b: int) -> Seq<
    Node<V>,
> {
    let both = compressed::<V, O>(compressed::<V, O>(nodes, a), b);
    let root_a = root_of(nodes, a);
    let root_b = root_of(nodes, b);
    match chain_fold::<V, O>(nodes, a) {
        Err(_) => compressed::<V, O>(nodes, a),
        Ok(at) => if link_outcome::<V, O>(nodes, a, b) is Err {
            both
        } else if nodes[a].parent is None {
            both.update(root_b, Node { parent: Some(root_a as usize), value: nodes[root_b].value })
        } else {
            both.update(
                root_b,
                Node {
                    parent: Some(root_a as usize),
                    value: O::associate_spec(at, nodes[root_b].value)->Ok_0,
                },
            )
        },
    }
}

} // verus!
