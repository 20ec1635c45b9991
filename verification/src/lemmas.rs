//! Facts about the functions of [`crate::model`], on which the proofs of the forest and of
//! its laws rest.
use vstd::prelude::*;
use crate::model::chain_fold;
use crate::model::chain_fold_by;
use crate::model::chain_req;
use crate::model::compressed;
use crate::model::eval_req;
use crate::model::evaluation;
use crate::model::evaluation_by;
use crate::model::link_outcome;
use crate::model::link_req;
use crate::model::linked;
use crate::model::on_path;
use crate::model::ranked;
use crate::model::ranking;
use crate::model::root_of;
use crate::model::well_formed;
use crate::node::Node;
use crate::operation::agrees_with;
use crate::operation::groups_freely;
use crate::operation::is_total;
use crate::operation::AssociativeOperation;

verus! {

/// The chosen ranking of a forest is a ranking.
pub proof fn lemma_ranking<V>(nodes: Seq<Node<V>>)
    requires
        well_formed(nodes),
    ensures
        ranked(nodes, ranking(nodes)),
{
}

/// The root of a record is a root of the forest, shared with the record's parent, and ranks
/// below every record of its tree.
pub proof fn lemma_root_of<V>(nodes: Seq<Node<V>>, rank: Seq<nat>, k: int)
    requires
        ranked(nodes, rank),
        0 <= k < nodes.len(),
    ensures
        0 <= root_of(nodes, k) < nodes.len(),
        nodes[root_of(nodes, k)].parent is None,
        on_path(nodes, root_of(nodes, k), k),
        rank[root_of(nodes, k)] <= rank[k],
        nodes[k].parent is None ==> root_of(nodes, k) == k,
        nodes[k].parent matches Some(p) ==> root_of(nodes, k) == root_of(nodes, p as int)
            && rank[root_of(nodes, k)] < rank[k] && root_of(nodes, k) <= usize::MAX,
    decreases rank[k],
{
    match nodes[k].parent {
        None => {},
        Some(p) => {
            lemma_root_of(nodes, rank, p as int);
        },
    }
}

/// A record on the chain of `k` is in range, shares the root of `k`, and ranks below `k`
/// unless it is `k`.
pub proof fn lemma_on_path<V>(nodes: Seq<Node<V>>, rank: Seq<nat>, j: int, k: int)
    requires
        ranked(nodes, rank),
        0 <= k < nodes.len(),
        on_path(nodes, j, k),
    ensures
        0 <= j < nodes.len(),
        root_of(nodes, j) == root_of(nodes, k),
        j != k ==> rank[j] < rank[k],
        nodes[j].parent is None ==> j == root_of(nodes, k),
    decreases rank[k],
{
    if j != k {
        let p = nodes[k].parent.unwrap() as int;
        lemma_on_path(nodes, rank, j, p);
        lemma_root_of(nodes, rank, k);
    } else {
        lemma_root_of(nodes, rank, k);
    }
}

/// Compressing a chain keeps the records a forest: any ranking of the forest still ranks it.
pub proof fn lemma_compressed_ranked<V, O: AssociativeOperation<V>>(
    nodes: Seq<Node<V>>,
    rank: Seq<nat>,
    k: int,
)
    requires
        ranked(nodes, rank),
        0 <= k < nodes.len(),
    ensures
        ranked(compressed::<V, O>(nodes, k), rank),
{
    let after = compressed::<V, O>(nodes, k);
    lemma_root_of(nodes, rank, k);
    assert forall|i: int| 0 <= i < after.len() implies ((#[trigger] after[i]).parent matches Some(p)
        ==> p < after.len() && rank[p as int] < rank[i]) by {
        assert(nodes[i].parent matches Some(p) ==> p < nodes.len());
        if on_path(nodes, i, k) && nodes[i].parent is Some {
            lemma_on_path(nodes, rank, i, k);
            lemma_root_of(nodes, rank, i);
        }
    }
}

/// How compressing the chain of `k` builds on compressing the chain of its parent.
pub proof fn lemma_compressed_step<V, O: AssociativeOperation<V>>(nodes: Seq<Node<V>>, k: int)
    requires
        well_formed(nodes),
        0 <= k < nodes.len(),
        nodes[k].parent is Some,
    ensures
        ({
            let p = nodes[k].parent->Some_0 as int;
            let above = compressed::<V, O>(nodes, p);
            let root = root_of(nodes, k);
            &&& 0 <= p < nodes.len()
            &&& 0 <= root < nodes.len()
            &&& well_formed(above)
            &&& well_formed(compressed::<V, O>(nodes, k))
            &&& above[k] == nodes[k]
            &&& nodes[p].parent is None ==> compressed::<V, O>(nodes, k) == nodes
            &&& nodes[p].parent is Some ==> {
                &&& ranking(nodes)[p] < ranking(nodes)[k]
                &&& chain_fold::<V, O>(nodes, p) matches Ok(fold) ==> above[p] == (Node {
                    parent: Some(root as usize),
                    value: fold,
                })
                &&& match chain_fold::<V, O>(nodes, k) {
                    Ok(fold) => compressed::<V, O>(nodes, k) == above.update(
                        k,
                        Node { parent: Some(root as usize), value: fold },
                    ),
                    Err(_) => compressed::<V, O>(nodes, k) == above,
                }
            }
        }),
{
    let rank = ranking(nodes);
    let p = nodes[k].parent->Some_0 as int;
    let above = compressed::<V, O>(nodes, p);
    let after = compressed::<V, O>(nodes, k);
    let root = root_of(nodes, k);
    lemma_root_of(nodes, rank, k);
    lemma_root_of(nodes, rank, p);
    lemma_compressed_ranked::<V, O>(nodes, rank, k);
    lemma_compressed_ranked::<V, O>(nodes, rank, p);
    if on_path(nodes, k, p) {
        lemma_on_path(nodes, rank, k, p);
    }
    if nodes[p].parent is None {
        assert forall|j: int| 0 <= j < nodes.len() implies after[j] == nodes[j] by {
            if on_path(nodes, j, k) && j != k {
                assert(on_path(nodes, j, p));
                assert(j == p);
            }
        }
        assert(after =~= nodes);
    } else {
        assert(on_path(nodes, p, p));
        match chain_fold::<V, O>(nodes, k) {
            Ok(fold) => {
                assert(on_path(nodes, k, k));
                assert forall|j: int| 0 <= j < nodes.len() implies after[j] == above.update(
                    k,
                    Node { parent: Some(root as usize), value: fold },
                )[j] by {
                    assert(on_path(nodes, j, k) <==> (j == k || on_path(nodes, j, p)));
                }
                assert(after =~= above.update(k, Node { parent: Some(root as usize), value: fold }));
            },
            Err(_) => {
                assert forall|j: int| 0 <= j < nodes.len() implies after[j] == above[j] by {
                    assert(on_path(nodes, j, k) <==> (j == k || on_path(nodes, j, p)));
                }
                assert(after =~= above);
            },
        }
    }
}

/// Compressing the chain of a root changes nothing.
pub proof fn lemma_compressed_root<V, O: AssociativeOperation<V>>(nodes: Seq<Node<V>>, k: int)
    requires
        well_formed(nodes),
        0 <= k < nodes.len(),
        nodes[k].parent is None,
    ensures
        compressed::<V, O>(nodes, k) == nodes,
{
    assert(compressed::<V, O>(nodes, k) =~= nodes);
}

/// What compressing the chain of `k` leaves at `k`, at the roots and of the shape.
pub proof fn lemma_compressed_at<V, O: AssociativeOperation<V>>(nodes: Seq<Node<V>>, k: int)
    requires
        well_formed(nodes),
        0 <= k < nodes.len(),
    ensures
        well_formed(compressed::<V, O>(nodes, k)),
        compressed::<V, O>(nodes, k).len() == nodes.len(),
        0 <= root_of(nodes, k) < nodes.len(),
        nodes[root_of(nodes, k)].parent is None,
        nodes[k].parent is None ==> root_of(nodes, k) == k,
        nodes[k].parent is Some ==> root_of(nodes, k) <= usize::MAX,
        forall|j: int|
            0 <= j < nodes.len() ==> ((#[trigger] compressed::<V, O>(nodes, k)[j]).parent is None
                <==> nodes[j].parent is None),
        forall|j: int|
            0 <= j < nodes.len() && nodes[j].parent is None ==> #[trigger] compressed::<V, O>(
                nodes,
                k,
            )[j] == nodes[j],
        forall|j: int|
            0 <= j < nodes.len() && !on_path(nodes, j, k) ==> #[trigger] compressed::<V, O>(
                nodes,
                k,
            )[j] == nodes[j],
        nodes[k].parent is Some ==> (chain_fold::<V, O>(nodes, k) matches Ok(fold) ==> compressed::<
            V,
            O,
        >(nodes, k)[k] == (Node { parent: Some(root_of(nodes, k) as usize), value: fold })),
{
    let rank = ranking(nodes);
    lemma_compressed_ranked::<V, O>(nodes, rank, k);
    lemma_root_of(nodes, rank, k);
    assert(on_path(nodes, k, k));
}

/// Compressing a chain changes no root, no fold and no evaluation, of any record, and asks
/// nothing new of the operation.
pub proof fn lemma_compressed_preserves<V, O: AssociativeOperation<V>>(
    nodes: Seq<Node<V>>,
    k: int,
    j: int,
)
    requires
        well_formed(nodes),
        0 <= k < nodes.len(),
        0 <= j < nodes.len(),
    ensures
        root_of(compressed::<V, O>(nodes, k), j) == root_of(nodes, j),
        chain_fold::<V, O>(compressed::<V, O>(nodes, k), j) == chain_fold::<V, O>(nodes, j),
        evaluation::<V, O>(compressed::<V, O>(nodes, k), j) == evaluation::<V, O>(nodes, j),
        chain_req::<V, O>(nodes, j) ==> chain_req::<V, O>(compressed::<V, O>(nodes, k), j),
        eval_req::<V, O>(nodes, j) ==> eval_req::<V, O>(compressed::<V, O>(nodes, k), j),
    decreases ranking(nodes)[j],
{
    let rank = ranking(nodes);
    let after = compressed::<V, O>(nodes, k);
    lemma_compressed_at::<V, O>(nodes, k);
    lemma_root_of(nodes, rank, j);
    lemma_root_of(nodes, rank, k);
    match nodes[j].parent {
        None => {},
        Some(p) => {
            let p = p as int;
            let root = root_of(nodes, j);
            assert(after[root] == nodes[root]);
            assert(root_of(after, root) == root);
            if on_path(nodes, j, k) && chain_fold::<V, O>(nodes, j) is Ok {
                lemma_on_path(nodes, rank, j, k);
                assert(after[j].parent == Some(root as usize));
            } else {
                assert(after[j] == nodes[j]);
                lemma_compressed_preserves::<V, O>(nodes, k, p);
                assert(after[p].parent is None <==> nodes[p].parent is None);
            }
        },
    }
}

/// Storing another value at a root keeps the forest, its roots and the folds below the roots.
pub proof fn lemma_root_value<V, O: AssociativeOperation<V>>(
    nodes: Seq<Node<V>>,
    root: int,
    value: V,
    j: int,
)
    requires
        well_formed(nodes),
        0 <= root < nodes.len(),
        nodes[root].parent is None,
        0 <= j < nodes.len(),
    ensures
        well_formed(nodes.update(root, Node { parent: None, value })),
        root_of(nodes.update(root, Node { parent: None, value }), j) == root_of(nodes, j),
        nodes[j].parent is Some ==> chain_fold::<V, O>(
            nodes.update(root, Node { parent: None, value }),
            j,
        ) == chain_fold::<V, O>(nodes, j),
        chain_req::<V, O>(nodes.update(root, Node { parent: None, value }), j) == chain_req::<V, O>(
            nodes,
            j,
        ),
    decreases ranking(nodes)[j],
{
    let rank = ranking(nodes);
    let after = nodes.update(root, Node { parent: None, value });
    assert(ranked(after, rank)) by {
        assert forall|i: int| 0 <= i < after.len() implies ((#[trigger] after[i]).parent matches Some(
            p,
        ) ==> p < after.len() && rank[p as int] < rank[i]) by {
            assert(nodes[i].parent == after[i].parent);
        }
    }
    match nodes[j].parent {
        None => {},
        Some(p) => {
            assert(after[j] == nodes[j]);
            lemma_root_value::<V, O>(nodes, root, value, p as int);
            assert(after[p as int].parent is None <==> nodes[p as int].parent is None);
        },
    }
}

/// Putting one root under another keeps the records a forest, and leaves every other tree as
/// it was.
pub proof fn lemma_attach_outside<V>(nodes: Seq<Node<V>>, under: int, root: int, value: V, j: int)
    requires
        well_formed(nodes),
        0 <= root < nodes.len(),
        0 <= under < nodes.len(),
        nodes[root].parent is None,
        root_of(nodes, under) != root,
        0 <= j < nodes.len(),
        root_of(nodes, j) != root,
    ensures
        well_formed(nodes.update(root, Node { parent: Some(under as usize), value })),
        root_of(nodes.update(root, Node { parent: Some(under as usize), value }), j) == root_of(
            nodes,
            j,
        ),
    decreases ranking(nodes)[j],
{
    let rank = ranking(nodes);
    let after = nodes.update(root, Node { parent: Some(under as usize), value });
    let lifted = Seq::new(
        nodes.len(),
        |i: int|
            if root_of(nodes, i) == root {
                rank[i] + rank[under] + 1
            } else {
                rank[i]
            },
    );
    assert(ranked(after, lifted)) by {
        assert forall|i: int| 0 <= i < after.len() implies ((#[trigger] after[i]).parent matches Some(
            p,
        ) ==> p < after.len() && lifted[p as int] < lifted[i]) by {
            lemma_root_of(nodes, rank, i);
            assert(nodes[i].parent is Some ==> after[i] == nodes[i] || i == root);
        }
    }
    lemma_root_of(nodes, rank, j);
    match nodes[j].parent {
        None => {},
        Some(p) => {
            lemma_attach_outside(nodes, under, root, value, p as int);
        },
    }
}

/// Putting one root under another moves the tree of the first into the tree of the second.
pub proof fn lemma_attach<V>(nodes: Seq<Node<V>>, under: int, root: int, value: V, j: int)
    requires
        well_formed(nodes),
        0 <= root < nodes.len(),
        0 <= under < nodes.len(),
        nodes[root].parent is None,
        root_of(nodes, under) != root,
        0 <= j < nodes.len(),
    ensures
        well_formed(nodes.update(root, Node { parent: Some(under as usize), value })),
        root_of(nodes.update(root, Node { parent: Some(under as usize), value }), j) == if root_of(
            nodes,
            j,
        ) == root {
            root_of(nodes, under)
        } else {
            root_of(nodes, j)
        },
    decreases ranking(nodes)[j],
{
    lemma_root_of(nodes, ranking(nodes), j);
    lemma_attach_outside(nodes, under, root, value, under);
    if j != root {
        match nodes[j].parent {
            None => {},
            Some(p) => {
                lemma_attach(nodes, under, root, value, p as int);
            },
        }
    }
}

/// A forest with one more root is a forest.
pub proof fn lemma_push_root<V>(nodes: Seq<Node<V>>, value: V)
    requires
        well_formed(nodes),
        nodes.len() < usize::MAX,
    ensures
        well_formed(nodes.push(Node { parent: None, value })),
{
    let rank = ranking(nodes);
    let after = nodes.push(Node { parent: None, value });
    assert(ranked(after, rank.push(0))) by {
        assert forall|i: int| 0 <= i < after.len() implies ((#[trigger] after[i]).parent matches Some(
            p,
        ) ==> p < after.len() && rank.push(0)[p as int] < rank.push(0)[i]) by {
            if i < nodes.len() {
                assert(after[i] == nodes[i]);
            }
        }
    }
}

/// The steps of a link, one after the other: what each compression needs and leaves, and that
/// the linked records are a forest.
pub proof fn lemma_link_steps<V, O: AssociativeOperation<V>>(nodes: Seq<Node<V>>, a: int, b: int)
    requires
        well_formed(nodes),
        0 <= a < nodes.len(),
        0 <= b < nodes.len(),
        root_of(nodes, a) != root_of(nodes, b),
    ensures
        ({
            let first = compressed::<V, O>(nodes, a);
            let both = compressed::<V, O>(first, b);
            let root_a = root_of(nodes, a);
            let root_b = root_of(nodes, b);
            &&& well_formed(first)
            &&& well_formed(both)
            &&& well_formed(linked::<V, O>(nodes, a, b))
            &&& first.len() == nodes.len()
            &&& both.len() == nodes.len()
            &&& 0 <= root_a < nodes.len()
            &&& 0 <= root_b < nodes.len()
            &&& nodes[root_b].parent is None
            &&& first[b].parent is None <==> nodes[b].parent is None
            &&& nodes[a].parent is None ==> first == nodes && root_a == a
            &&& nodes[b].parent is None ==> both == first && root_b == b
            &&& nodes[a].parent is Some ==> root_a <= usize::MAX && root_a != a
            &&& nodes[b].parent is Some ==> root_b <= usize::MAX && root_b != b
            &&& chain_fold::<V, O>(first, b) == chain_fold::<V, O>(nodes, b)
            &&& chain_req::<V, O>(nodes, b) ==> chain_req::<V, O>(first, b)
            &&& chain_fold::<V, O>(nodes, a) is Ok ==> {
                &&& nodes[a].parent is Some ==> first[a].parent == Some(root_a as usize)
                &&& chain_fold::<V, O>(nodes, b) is Ok ==> {
                    &&& nodes[b].parent is Some ==> both[b].parent == Some(root_b as usize)
                    &&& both[root_b] == nodes[root_b]
                    &&& nodes[a].parent is Some ==> both[a] == (Node {
                        parent: Some(root_a as usize),
                        value: chain_fold::<V, O>(nodes, a)->Ok_0,
                    })
                }
            }
        }),
{
    let rank = ranking(nodes);
    let first = compressed::<V, O>(nodes, a);
    let both = compressed::<V, O>(first, b);
    let root_a = root_of(nodes, a);
    let root_b = root_of(nodes, b);
    lemma_root_of(nodes, rank, a);
    lemma_root_of(nodes, rank, b);
    lemma_compressed_at::<V, O>(nodes, a);
    lemma_compressed_at::<V, O>(first, b);
    lemma_compressed_preserves::<V, O>(nodes, a, b);
    lemma_compressed_preserves::<V, O>(nodes, a, a);
    lemma_compressed_preserves::<V, O>(nodes, a, root_b);
    if nodes[a].parent is None {
        lemma_compressed_root::<V, O>(nodes, a);
    }
    if nodes[b].parent is None {
        lemma_compressed_root::<V, O>(first, b);
    }
    if on_path(first, a, b) {
        lemma_on_path(first, ranking(first), a, b);
    }
    if on_path(first, root_a, b) {
        lemma_on_path(first, ranking(first), root_a, b);
    }
    assert(both[a] == first[a]);
    assert(both[root_a] == first[root_a]);
    assert(both[root_b] == nodes[root_b]);
    if chain_fold::<V, O>(nodes, a) is Ok && link_outcome::<V, O>(nodes, a, b) is Ok {
        lemma_compressed_preserves::<V, O>(first, b, root_b);
        lemma_compressed_preserves::<V, O>(first, b, root_a);
        let value = if nodes[a].parent is None {
            nodes[root_b].value
        } else {
            O::associate_spec(chain_fold::<V, O>(nodes, a)->Ok_0, nodes[root_b].value)->Ok_0
        };
        assert(root_of(both, root_a) == root_a);
        lemma_attach(both, root_a, root_b, value, root_b);
    }
}

/// With a total operation every fold succeeds and nothing is asked before a call.
pub proof fn lemma_total<V, O: AssociativeOperation<V>>(nodes: Seq<Node<V>>, k: int)
    requires
        well_formed(nodes),
        0 <= k < nodes.len(),
        is_total::<V, O>(),
    ensures
        chain_fold::<V, O>(nodes, k) is Ok,
        evaluation::<V, O>(nodes, k) is Ok,
        chain_req::<V, O>(nodes, k),
        eval_req::<V, O>(nodes, k),
    decreases ranking(nodes)[k],
{
    match nodes[k].parent {
        None => {},
        Some(p) => {
            lemma_total::<V, O>(nodes, p as int);
        },
    }
}

/// With a total operation a link asks nothing before its calls and succeeds.
pub proof fn lemma_total_link<V, O: AssociativeOperation<V>>(nodes: Seq<Node<V>>, a: int, b: int)
    requires
        well_formed(nodes),
        0 <= a < nodes.len(),
        0 <= b < nodes.len(),
        is_total::<V, O>(),
    ensures
        link_req::<V, O>(nodes, a, b),
        link_outcome::<V, O>(nodes, a, b) is Ok,
{
    lemma_total::<V, O>(nodes, a);
    lemma_total::<V, O>(nodes, b);
}

/// One more root changes nothing of the nodes that were there.
pub proof fn lemma_push_root_preserves<V, O: AssociativeOperation<V>>(
    nodes: Seq<Node<V>>,
    value: V,
    j: int,
)
    requires
        well_formed(nodes),
        nodes.len() < usize::MAX,
        0 <= j < nodes.len(),
    ensures
        well_formed(nodes.push(Node { parent: None, value })),
        root_of(nodes.push(Node { parent: None, value }), j) == root_of(nodes, j),
        chain_fold::<V, O>(nodes.push(Node { parent: None, value }), j) == chain_fold::<V, O>(
            nodes,
            j,
        ),
        evaluation::<V, O>(nodes.push(Node { parent: None, value }), j) == evaluation::<V, O>(
            nodes,
            j,
        ),
    decreases ranking(nodes)[j],
{
    let after = nodes.push(Node { parent: None, value });
    lemma_push_root(nodes, value);
    lemma_root_of(nodes, ranking(nodes), j);
    assert(after[j] == nodes[j]);
    match nodes[j].parent {
        None => {},
        Some(p) => {
            assert(after[p as int] == nodes[p as int]);
            lemma_push_root_preserves::<V, O>(nodes, value, p as int);
            assert(after[root_of(nodes, j)] == nodes[root_of(nodes, j)]);
        },
    }
}

/// Where the operation agrees with a function on all pairs, a fold that was admitted and
/// succeeded is the fold by that function, and so is an evaluation.
pub proof fn lemma_agreement<V, O: AssociativeOperation<V>>(
    nodes: Seq<Node<V>>,
    total: spec_fn(V, V) -> V,
    k: int,
)
    requires
        well_formed(nodes),
        0 <= k < nodes.len(),
        agrees_with::<V, O>(total),
        chain_req::<V, O>(nodes, k),
        chain_fold::<V, O>(nodes, k) is Ok,
    ensures
        chain_fold::<V, O>(nodes, k) == Ok::<V, O::Error>(chain_fold_by(nodes, total, k)),
        eval_req::<V, O>(nodes, k) && evaluation::<V, O>(nodes, k) is Ok ==> evaluation::<V, O>(
            nodes,
            k,
        ) == Ok::<V, O::Error>(evaluation_by(nodes, total, k)),
    decreases ranking(nodes)[k],
{
    match nodes[k].parent {
        None => {},
        Some(p) => {
            if nodes[p as int].parent is Some {
                lemma_agreement::<V, O>(nodes, total, p as int);
            }
        },
    }
}

/// Putting a root under another root, with any value, puts that value in front of every fold
/// of its tree, where folds are made by a function to which grouping does not matter.
pub proof fn lemma_attach_prepends<V>(
    nodes: Seq<Node<V>>,
    total: spec_fn(V, V) -> V,
    under: int,
    root: int,
    value: V,
    j: int,
)
    requires
        well_formed(nodes),
        0 <= root < nodes.len(),
        0 <= under < nodes.len(),
        0 <= j < nodes.len(),
        nodes[root].parent is None,
        nodes[under].parent is None,
        under != root,
        groups_freely(total),
    ensures
        ({
            let after = nodes.update(root, Node { parent: Some(under as usize), value });
            &&& well_formed(after)
            &&& root_of(nodes, j) != root ==> root_of(after, j) == root_of(nodes, j)
                && chain_fold_by(after, total, j) == chain_fold_by(nodes, total, j)
            &&& root_of(nodes, j) == root ==> root_of(after, j) == under
            &&& j == root ==> chain_fold_by(after, total, j) == value
            &&& root_of(nodes, j) == root && j != root ==> chain_fold_by(after, total, j) == total(
                value,
                chain_fold_by(nodes, total, j),
            )
        }),
    decreases ranking(nodes)[j],
{
    let after = nodes.update(root, Node { parent: Some(under as usize), value });
    lemma_root_of(nodes, ranking(nodes), j);
    lemma_attach(nodes, under, root, value, j);
    assert(after[under] == nodes[under]);
    if j != root {
        assert(after[j] == nodes[j]);
        match nodes[j].parent {
            None => {},
            Some(p) => {
                let p = p as int;
                lemma_attach_prepends(nodes, total, under, root, value, p);
                if root_of(nodes, j) == root {
                    if p != root {
                        assert(total(
                            total(value, chain_fold_by(nodes, total, p)),
                            nodes[j].value,
                        ) == total(value, total(chain_fold_by(nodes, total, p), nodes[j].value)));
                    }
                } else {
                    assert(after[p].parent is None <==> nodes[p].parent is None);
                }
            },
        }
    }
}

/// A chain of the compressed forest holds only records of the chain it was made from.
pub proof fn lemma_compressed_path<V, O: AssociativeOperation<V>>(nodes: Seq<Node<V>>, k: int, i: int, j: int)
    requires
        well_formed(nodes),
        0 <= k < nodes.len(),
        0 <= i < nodes.len(),
        on_path(compressed::<V, O>(nodes, k), j, i),
    ensures
        on_path(nodes, j, i),
    decreases ranking(nodes)[i],
{
    let rank = ranking(nodes);
    let after = compressed::<V, O>(nodes, k);
    lemma_compressed_at::<V, O>(nodes, k);
    lemma_root_of(nodes, rank, i);
    lemma_root_of(nodes, rank, k);
    if j != i {
        let q = after[i].parent->Some_0 as int;
        if after[i] == nodes[i] {
            lemma_compressed_path::<V, O>(nodes, k, q, j);
        } else {
            lemma_on_path(nodes, rank, i, k);
            assert(q == root_of(nodes, i));
            assert(after[q].parent is None);
            assert(on_path(after, j, q));
        }
    }
}

/// Putting a root under another root changes no fold in any other tree.
pub proof fn lemma_attach_keeps_folds<V, O: AssociativeOperation<V>>(
    nodes: Seq<Node<V>>,
    under: int,
    root: int,
    value: V,
    j: int,
)
    requires
        well_formed(nodes),
        0 <= root < nodes.len(),
        0 <= under < nodes.len(),
        0 <= j < nodes.len(),
        nodes[root].parent is None,
        root_of(nodes, under) != root,
        root_of(nodes, j) != root,
    ensures
        chain_fold::<V, O>(nodes.update(root, Node { parent: Some(under as usize), value }), j)
            == chain_fold::<V, O>(nodes, j),
    decreases ranking(nodes)[j],
{
    let after = nodes.update(root, Node { parent: Some(under as usize), value });
    lemma_root_of(nodes, ranking(nodes), j);
    lemma_attach(nodes, under, root, value, j);
    assert(after[j] == nodes[j]);
    match nodes[j].parent {
        None => {},
        Some(p) => {
            let p = p as int;
            assert(after[p] == nodes[p]);
            lemma_attach_keeps_folds::<V, O>(nodes, under, root, value, p);
        },
    }
}

} // verus!
