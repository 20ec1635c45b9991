//! What holds of the operations of a forest: each law is stated over the functions of
//! [`crate::model`] that the contracts of the forest use, and holds whatever the associative
//! operation is, unless it says what it asks of the operation.
use vstd::prelude::*;
use crate::lemmas::lemma_agreement;
use crate::lemmas::lemma_attach;
use crate::lemmas::lemma_attach_keeps_folds;
use crate::lemmas::lemma_attach_prepends;
use crate::lemmas::lemma_compressed_at;
use crate::lemmas::lemma_compressed_path;
use crate::lemmas::lemma_compressed_preserves;
use crate::lemmas::lemma_link_steps;
use crate::lemmas::lemma_push_root_preserves;
use crate::lemmas::lemma_ranking;
use crate::lemmas::lemma_root_of;
use crate::lemmas::lemma_root_value;
use crate::lemmas::lemma_total;
use crate::lemmas::lemma_total_link;
use crate::model::chain_fold;
use crate::model::chain_fold_by;
use crate::model::compressed;
use crate::model::compression_outcome;
use crate::model::eval_req;
use crate::model::evaluation;
use crate::model::evaluation_by;
use crate::model::link_req;
use crate::model::link_outcome;
use crate::model::linked;
use crate::model::on_path;
use crate::model::ranking;
use crate::model::root_of;
use crate::model::updated;
use crate::model::well_formed;
use crate::node::Node;
use crate::operation::agrees_with;
use crate::operation::groups_freely;
use crate::operation::AssociativeOperation;
use crate::operation::is_associative;
use crate::operation::is_total;

verus! {

/// A root that was just added evaluates to the value it was added with.
pub proof fn law_fresh_root_evaluates_to_its_value<V, O: AssociativeOperation<V>>(
    nodes: Seq<Node<V>>,
    value: V,
)
    ensures
        evaluation::<V, O>(nodes.push(Node { parent: None, value }), nodes.len() as int) == Ok::<
            V,
            O::Error,
        >(value),
{
}

/// Adding a root changes the evaluation of no node that was there.
pub proof fn law_new_root_keeps_evaluations<V, O: AssociativeOperation<V>>(
    nodes: Seq<Node<V>>,
    value: V,
    j: int,
)
    requires
        well_formed(nodes),
        nodes.len() < usize::MAX,
        0 <= j < nodes.len(),
    ensures
        well_formed(nodes.push(Node { parent: None, value })),
        root_of(nodes.push(Node { parent: None, value }), j) == root_of(nodes, j),
        evaluation::<V, O>(nodes.push(Node { parent: None, value }), j) == evaluation::<V, O>(
            nodes,
            j,
        ),
{
    lemma_push_root_preserves::<V, O>(nodes, value, j);
}

/// Linking one root under another always succeeds and only gives the second its parent. The
/// second then evaluates to the two values combined, the first before the second, and the
/// first still evaluates to its own value.
pub proof fn law_linked_roots_fold_in_order<V, O: AssociativeOperation<V>>(
    nodes: Seq<Node<V>>,
    a: int,
    b: int,
)
    requires
        well_formed(nodes),
        0 <= a < nodes.len(),
        0 <= b < nodes.len(),
        a != b,
        nodes[a].parent is None,
        nodes[b].parent is None,
    ensures
        link_outcome::<V, O>(nodes, a, b) == Ok::<(), O::Error>(()),
        linked::<V, O>(nodes, a, b) == nodes.update(
            b,
            Node { parent: Some(a as usize), value: nodes[b].value },
        ),
        evaluation::<V, O>(linked::<V, O>(nodes, a, b), b) == O::associate_spec(
            nodes[a].value,
            nodes[b].value,
        ),
        evaluation::<V, O>(linked::<V, O>(nodes, a, b), a) == Ok::<V, O::Error>(nodes[a].value),
{
    let after = linked::<V, O>(nodes, a, b);
    lemma_link_steps::<V, O>(nodes, a, b);
    lemma_attach(nodes, a, b, nodes[b].value, b);
    assert(root_of(nodes, a) == a);
    assert(after[a] == nodes[a]);
}

/// Compressing a chain, which is all that evaluating does to a forest, changes the evaluation
/// of no node: evaluating again, the same node or another, gives what it gave before.
pub proof fn law_compression_keeps_evaluations<V, O: AssociativeOperation<V>>(
    nodes: Seq<Node<V>>,
    k: int,
    j: int,
)
    requires
        well_formed(nodes),
        0 <= k < nodes.len(),
        0 <= j < nodes.len(),
    ensures
        well_formed(compressed::<V, O>(nodes, k)),
        root_of(compressed::<V, O>(nodes, k), j) == root_of(nodes, j),
        evaluation::<V, O>(compressed::<V, O>(nodes, k), j) == evaluation::<V, O>(nodes, j),
{
    lemma_compressed_at::<V, O>(nodes, k);
    lemma_compressed_preserves::<V, O>(nodes, k, j);
}

/// Compressing a chain that has been compressed changes nothing more.
pub proof fn law_compression_is_idempotent<V, O: AssociativeOperation<V>>(nodes: Seq<Node<V>>, k: int)
    requires
        well_formed(nodes),
        0 <= k < nodes.len(),
    ensures
        compressed::<V, O>(compressed::<V, O>(nodes, k), k) == compressed::<V, O>(nodes, k),
        compression_outcome::<V, O>(compressed::<V, O>(nodes, k), k) == compression_outcome::<V, O>(
            nodes,
            k,
        ),
{
    let once = compressed::<V, O>(nodes, k);
    let twice = compressed::<V, O>(once, k);
    lemma_compressed_at::<V, O>(nodes, k);
    lemma_compressed_preserves::<V, O>(nodes, k, k);
    assert forall|j: int| 0 <= j < nodes.len() implies twice[j] == once[j] by {
        lemma_compressed_preserves::<V, O>(nodes, k, j);
        if on_path(once, j, k) {
            lemma_compressed_path::<V, O>(nodes, k, k, j);
        }
    }
    assert(twice =~= once);
}

/// An update through any node of a tree, if its compression succeeds, is an update of the root:
/// every node of the forest then evaluates as it does where the root's value alone is replaced.
/// So the root evaluates to the new value, every other node of the tree to the new value
/// combined with its fold below the root, and the nodes of other trees as before.
pub proof fn law_update_replaces_root_value<V, O: AssociativeOperation<V>>(
    nodes: Seq<Node<V>>,
    k: int,
    value: V,
    j: int,
)
    requires
        well_formed(nodes),
        0 <= k < nodes.len(),
        0 <= j < nodes.len(),
        chain_fold::<V, O>(nodes, k) is Ok,
    ensures
        ({
            let after = updated::<V, O>(nodes, k, value);
            let root = root_of(nodes, k);
            &&& well_formed(after)
            &&& root_of(after, j) == root_of(nodes, j)
            &&& evaluation::<V, O>(after, j) == evaluation::<V, O>(
                nodes.update(root, Node { parent: None, value }),
                j,
            )
            &&& root_of(nodes, j) != root ==> evaluation::<V, O>(after, j) == evaluation::<V, O>(
                nodes,
                j,
            )
            &&& j == root ==> evaluation::<V, O>(after, j) == Ok::<V, O::Error>(value)
            &&& root_of(nodes, j) == root && j != root ==> evaluation::<V, O>(after, j)
                == match chain_fold::<V, O>(nodes, j) {
                Ok(below) => O::associate_spec(value, below),
                Err(e) => Err(e),
            }
        }),
{
    let rank = ranking(nodes);
    let root = root_of(nodes, k);
    let squeezed = compressed::<V, O>(nodes, k);
    let top = root_of(nodes, j);
    lemma_root_of(nodes, rank, k);
    lemma_root_of(nodes, rank, j);
    lemma_compressed_at::<V, O>(nodes, k);
    lemma_compressed_preserves::<V, O>(nodes, k, j);
    lemma_root_value::<V, O>(squeezed, root, value, j);
    lemma_root_value::<V, O>(nodes, root, value, j);
    assert(squeezed[top] == nodes[top]);
}

/// A link at a node, root or not, leaves every node evaluating as it does where, once both
/// chains are compressed, the root of the second tree is put under that very node with its
/// value unchanged: what a link stores at that root makes up for putting it under the root of
/// the first tree.
pub proof fn law_link_attaches_at_the_node<V, O: AssociativeOperation<V>>(
    nodes: Seq<Node<V>>,
    a: int,
    b: int,
    j: int,
)
    requires
        well_formed(nodes),
        0 <= a < nodes.len(),
        0 <= b < nodes.len(),
        0 <= j < nodes.len(),
        root_of(nodes, a) != root_of(nodes, b),
        link_outcome::<V, O>(nodes, a, b) is Ok,
    ensures
        ({
            let both = compressed::<V, O>(compressed::<V, O>(nodes, a), b);
            let root_b = root_of(nodes, b);
            let direct = both.update(
                root_b,
                Node { parent: Some(a as usize), value: nodes[root_b].value },
            );
            &&& well_formed(linked::<V, O>(nodes, a, b))
            &&& well_formed(direct)
            &&& root_of(linked::<V, O>(nodes, a, b), j) == root_of(direct, j)
            &&& chain_fold::<V, O>(linked::<V, O>(nodes, a, b), j) == chain_fold::<V, O>(direct, j)
            &&& evaluation::<V, O>(linked::<V, O>(nodes, a, b), j) == evaluation::<V, O>(direct, j)
        }),
    decreases ranking(linked::<V, O>(nodes, a, b))[j],
{
    let first = compressed::<V, O>(nodes, a);
    let both = compressed::<V, O>(first, b);
    let root_a = root_of(nodes, a);
    let root_b = root_of(nodes, b);
    let after = linked::<V, O>(nodes, a, b);
    let direct = both.update(root_b, Node { parent: Some(a as usize), value: nodes[root_b].value });
    lemma_link_steps::<V, O>(nodes, a, b);
    lemma_compressed_preserves::<V, O>(nodes, a, a);
    lemma_compressed_preserves::<V, O>(first, b, a);
    lemma_compressed_preserves::<V, O>(nodes, a, root_a);
    lemma_compressed_preserves::<V, O>(first, b, root_a);
    lemma_compressed_preserves::<V, O>(nodes, a, root_b);
    lemma_compressed_preserves::<V, O>(first, b, root_b);
    lemma_root_of(nodes, ranking(nodes), a);
    lemma_root_of(nodes, ranking(nodes), b);
    assert(root_of(both, root_b) == root_b);
    assert(root_of(both, a) == root_a);
    lemma_attach(both, a, root_b, nodes[root_b].value, root_b);
    lemma_attach(both, a, root_b, nodes[root_b].value, a);
    lemma_attach(both, a, root_b, nodes[root_b].value, root_a);
    if nodes[a].parent is None {
        assert(after =~= direct);
    } else {
        lemma_ranking(after);
        lemma_root_of(after, ranking(after), j);
        assert(after[root_a] == both[root_a]);
        assert(direct[root_a] == both[root_a]);
        assert(direct[a] == both[a]);
        assert(after[a] == both[a]);
        lemma_ranking(direct);
        lemma_root_of(direct, ranking(direct), j);
        if j == root_b {
            assert(root_of(after, root_a) == root_a);
            assert(root_of(after, j) == root_a);
            assert(chain_fold::<V, O>(direct, a) == Ok::<V, O::Error>(both[a].value));
            assert(chain_fold::<V, O>(after, j) == Ok::<V, O::Error>(after[j].value));
            assert(chain_fold::<V, O>(direct, j) == O::associate_spec(
                both[a].value,
                nodes[root_b].value,
            ));
        } else {
            assert(after[j] == direct[j]);
            match after[j].parent {
                None => {},
                Some(p) => {
                    law_link_attaches_at_the_node::<V, O>(nodes, a, b, p as int);
                },
            }
        }
    }
}

/// A failed update leaves every node evaluating as before.
pub proof fn law_failed_update_keeps_evaluations<V, O: AssociativeOperation<V>>(
    nodes: Seq<Node<V>>,
    k: int,
    value: V,
    j: int,
)
    requires
        well_formed(nodes),
        0 <= k < nodes.len(),
        0 <= j < nodes.len(),
        compression_outcome::<V, O>(nodes, k) is Err,
    ensures
        well_formed(updated::<V, O>(nodes, k, value)),
        root_of(updated::<V, O>(nodes, k, value), j) == root_of(nodes, j),
        evaluation::<V, O>(updated::<V, O>(nodes, k, value), j) == evaluation::<V, O>(nodes, j),
{
    lemma_compressed_at::<V, O>(nodes, k);
    lemma_compressed_preserves::<V, O>(nodes, k, j);
}

/// A failed link leaves every node evaluating as before, and in the tree it was in.
pub proof fn law_failed_link_keeps_evaluations<V, O: AssociativeOperation<V>>(
    nodes: Seq<Node<V>>,
    a: int,
    b: int,
    j: int,
)
    requires
        well_formed(nodes),
        0 <= a < nodes.len(),
        0 <= b < nodes.len(),
        0 <= j < nodes.len(),
        link_outcome::<V, O>(nodes, a, b) is Err,
    ensures
        well_formed(linked::<V, O>(nodes, a, b)),
        root_of(linked::<V, O>(nodes, a, b), j) == root_of(nodes, j),
        evaluation::<V, O>(linked::<V, O>(nodes, a, b), j) == evaluation::<V, O>(nodes, j),
{
    let first = compressed::<V, O>(nodes, a);
    lemma_compressed_at::<V, O>(nodes, a);
    lemma_compressed_preserves::<V, O>(nodes, a, j);
    lemma_compressed_at::<V, O>(first, b);
    lemma_compressed_preserves::<V, O>(first, b, j);
}

/// A link that succeeds leaves every node outside the linked tree in its tree and evaluating
/// as before.
pub proof fn law_link_keeps_other_trees<V, O: AssociativeOperation<V>>(
    nodes: Seq<Node<V>>,
    a: int,
    b: int,
    j: int,
)
    requires
        well_formed(nodes),
        0 <= a < nodes.len(),
        0 <= b < nodes.len(),
        0 <= j < nodes.len(),
        root_of(nodes, a) != root_of(nodes, b),
        root_of(nodes, j) != root_of(nodes, b),
        link_outcome::<V, O>(nodes, a, b) is Ok,
    ensures
        well_formed(linked::<V, O>(nodes, a, b)),
        root_of(linked::<V, O>(nodes, a, b), j) == root_of(nodes, j),
        evaluation::<V, O>(linked::<V, O>(nodes, a, b), j) == evaluation::<V, O>(nodes, j),
{
    let first = compressed::<V, O>(nodes, a);
    let both = compressed::<V, O>(first, b);
    let root_a = root_of(nodes, a);
    let root_b = root_of(nodes, b);
    let after = linked::<V, O>(nodes, a, b);
    let top = root_of(nodes, j);
    lemma_link_steps::<V, O>(nodes, a, b);
    lemma_root_of(nodes, ranking(nodes), j);
    lemma_compressed_at::<V, O>(nodes, a);
    lemma_compressed_at::<V, O>(first, b);
    lemma_compressed_preserves::<V, O>(nodes, a, j);
    lemma_compressed_preserves::<V, O>(first, b, j);
    lemma_compressed_preserves::<V, O>(nodes, a, root_a);
    lemma_compressed_preserves::<V, O>(first, b, root_a);
    assert(root_of(both, root_a) == root_a);
    lemma_attach(both, root_a, root_b, after[root_b].value, j);
    lemma_attach_keeps_folds::<V, O>(both, root_a, root_b, after[root_b].value, j);
    assert(after[j] == both[j]);
    assert(both[top] == nodes[top]);
    assert(after[top] == both[top]);
}

/// Where the operation is a function to which grouping does not matter, kept to some pairs, a
/// link puts the evaluation of the node linked to in front of the evaluation of every node of
/// the tree that is linked: wherever the three evaluations are admitted and succeed, the new
/// one is the old one of the node linked to combined with the old one of the node itself.
pub proof fn law_link_prepends_where_defined<V, O: AssociativeOperation<V>>(
    nodes: Seq<Node<V>>,
    total: spec_fn(V, V) -> V,
    a: int,
    b: int,
    j: int,
)
    requires
        well_formed(nodes),
        0 <= a < nodes.len(),
        0 <= b < nodes.len(),
        0 <= j < nodes.len(),
        root_of(nodes, a) != root_of(nodes, b),
        root_of(nodes, j) == root_of(nodes, b),
        agrees_with::<V, O>(total),
        groups_freely(total),
        link_req::<V, O>(nodes, a, b),
        link_outcome::<V, O>(nodes, a, b) is Ok,
        eval_req::<V, O>(nodes, a),
        evaluation::<V, O>(nodes, a) is Ok,
        eval_req::<V, O>(nodes, j),
        evaluation::<V, O>(nodes, j) is Ok,
        eval_req::<V, O>(linked::<V, O>(nodes, a, b), j),
        evaluation::<V, O>(linked::<V, O>(nodes, a, b), j) is Ok,
    ensures
        well_formed(linked::<V, O>(nodes, a, b)),
        root_of(linked::<V, O>(nodes, a, b), j) == root_of(nodes, a),
        evaluation::<V, O>(linked::<V, O>(nodes, a, b), j) == Ok::<V, O::Error>(
            total(evaluation::<V, O>(nodes, a)->Ok_0, evaluation::<V, O>(nodes, j)->Ok_0),
        ),
{
    let first = compressed::<V, O>(nodes, a);
    let both = compressed::<V, O>(first, b);
    let root_a = root_of(nodes, a);
    let root_b = root_of(nodes, b);
    let after = linked::<V, O>(nodes, a, b);
    lemma_link_steps::<V, O>(nodes, a, b);
    lemma_root_of(nodes, ranking(nodes), a);
    lemma_root_of(nodes, ranking(nodes), j);
    lemma_compressed_at::<V, O>(nodes, a);
    lemma_compressed_at::<V, O>(first, b);
    lemma_compressed_preserves::<V, O>(nodes, a, j);
    lemma_compressed_preserves::<V, O>(first, b, j);
    lemma_compressed_preserves::<V, O>(nodes, a, a);
    lemma_compressed_preserves::<V, O>(first, b, a);
    lemma_compressed_preserves::<V, O>(nodes, a, root_a);
    lemma_compressed_preserves::<V, O>(first, b, root_a);
    lemma_compressed_preserves::<V, O>(nodes, a, root_b);
    lemma_compressed_preserves::<V, O>(first, b, root_b);
    assert(both[root_a] == nodes[root_a]);
    assert(both[root_b] == nodes[root_b]);
    // the evaluations before the link, taken in the forest with both chains compressed
    lemma_agreement::<V, O>(both, total, a);
    lemma_agreement::<V, O>(both, total, j);
    // the evaluation after the link
    lemma_agreement::<V, O>(after, total, j);
    let value = after[root_b].value;
    lemma_attach_prepends(both, total, root_a, root_b, value, j);
    let old_a = evaluation_by(both, total, a);
    let old_j = evaluation_by(both, total, j);
    if nodes[a].parent is None {
        if j != root_b {
            assert(evaluation_by(after, total, j) == total(old_a, old_j));
        }
    } else {
        let front = both[a].value;
        assert(chain_fold_by(both, total, a) == front);
        assert(value == total(front, nodes[root_b].value));
        assert(old_a == total(nodes[root_a].value, front));
        if j == root_b {
            assert(total(total(nodes[root_a].value, front), nodes[root_b].value) == total(
                nodes[root_a].value,
                total(front, nodes[root_b].value),
            ));
        } else {
            let below = chain_fold_by(both, total, j);
            assert(old_j == total(nodes[root_b].value, below));
            assert(total(total(front, nodes[root_b].value), below) == total(front, old_j));
            assert(total(total(nodes[root_a].value, front), old_j) == total(
                nodes[root_a].value,
                total(front, old_j),
            ));
        }
    }
}

/// Under a total and associative operation, a link puts the evaluation of the node linked to
/// in front of the evaluation of every node of the tree that is linked.
pub proof fn law_link_prepends_evaluation<V, O: AssociativeOperation<V>>(
    nodes: Seq<Node<V>>,
    a: int,
    b: int,
    j: int,
)
    requires
        well_formed(nodes),
        0 <= a < nodes.len(),
        0 <= b < nodes.len(),
        0 <= j < nodes.len(),
        root_of(nodes, a) != root_of(nodes, b),
        root_of(nodes, j) == root_of(nodes, b),
        is_total::<V, O>(),
        is_associative::<V, O>(),
    ensures
        well_formed(linked::<V, O>(nodes, a, b)),
        link_outcome::<V, O>(nodes, a, b) is Ok,
        root_of(linked::<V, O>(nodes, a, b), j) == root_of(nodes, a),
        evaluation::<V, O>(linked::<V, O>(nodes, a, b), j) == O::associate_spec(
            evaluation::<V, O>(nodes, a)->Ok_0,
            evaluation::<V, O>(nodes, j)->Ok_0,
        ),
{
    let total = |x: V, y: V| O::associate_spec(x, y)->Ok_0;
    assert(groups_freely(total)) by {
        assert forall|x: V, y: V, z: V| #[trigger] total(total(x, y), z) == total(
            x,
            total(y, z),
        ) by {
            assert(O::associate_spec(O::associate_spec(x, y)->Ok_0, z) == O::associate_spec(
                x,
                O::associate_spec(y, z)->Ok_0,
            ));
        }
    }
    lemma_link_steps::<V, O>(nodes, a, b);
    lemma_total_link::<V, O>(nodes, a, b);
    lemma_total::<V, O>(nodes, a);
    lemma_total::<V, O>(nodes, j);
    lemma_total::<V, O>(linked::<V, O>(nodes, a, b), j);
    law_link_prepends_where_defined::<V, O>(nodes, total, a, b, j);
}

} // verus!
