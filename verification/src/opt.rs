//! The optimization pipeline over a recorded node list: constant folding,
//! algebraic simplification, common-subexpression elimination, dead-code
//! elimination and renumbering.
//!
//! Every pass preserves the value of every node on every canonical input
//! buffer, and preserves definedness: a graph that evaluates without an
//! arithmetic fault before a pass still does afterwards.

use vstd::prelude::*;
use crate::field::{Felt, p, lemma_p_bounds, modulus};
use crate::ops::{Operation, eval, eval_op, eval_ok};
use crate::graph::{
    Node,
    nodes_topo,
    nodes_canon,
    no_mont,
    node_val,
    node_ok,
    graph_ok,
    inputs_canon,
    lemma_val_update_at,
    mont_reduce_node,
    reachable,
    uses,
};

verus! {

/// Folds every operation on constant operands into a constant, and turns
/// every Montgomery constant into a canonical one. Values and definedness
/// are untouched on every input buffer.
pub fn fold_constants(nodes: &mut Vec<Node>)
    requires
        nodes_topo(old(nodes)@),
        nodes_canon(old(nodes)@),
    ensures
        final(nodes)@.len() == old(nodes)@.len(),
        nodes_topo(final(nodes)@),
        nodes_canon(final(nodes)@),
        no_mont(final(nodes)@),
        forall|j: int|
            0 <= j < final(nodes)@.len() ==> ((((#[trigger] final(nodes)@[j]) matches Node::Input(
                _,
            )) || (old(nodes)@[j] matches Node::Input(_))) ==> final(nodes)@[j] == old(
                nodes,
            )@[j]),
        forall|inputs: Seq<nat>, j: int|
            0 <= j < final(nodes)@.len() ==> #[trigger] node_val(final(nodes)@, inputs, j)
                == node_val(old(nodes)@, inputs, j),
        forall|inputs: Seq<nat>, j: int|
            0 <= j < final(nodes)@.len() ==> (#[trigger] node_ok(final(nodes)@, inputs, j)
                <==> node_ok(old(nodes)@, inputs, j)),
        no_mont(old(nodes)@) && no_redex(old(nodes)@) ==> final(nodes)@ == old(nodes)@,
{
    let ghost orig = nodes@;
    let m = modulus();
    proof {
        lemma_p_bounds();
    }
    let n = nodes.len();
    for i in 0..n
        invariant
            n == nodes@.len(),
            nodes@.len() == orig.len(),
            m.as_nat() == p(),
            nodes_topo(nodes@),
            nodes_canon(nodes@),
            forall|j: int| i <= j < n ==> #[trigger] nodes@[j] == orig[j],
            forall|j: int|
                0 <= j < i ==> !((#[trigger] nodes@[j]) matches Node::MontConstant(_)),
            forall|j: int|
                0 <= j < n ==> ((((#[trigger] nodes@[j]) matches Node::Input(_)) || (
                orig[j] matches Node::Input(_))) ==> nodes@[j] == orig[j]),
            forall|inputs: Seq<nat>, j: int|
                0 <= j < n ==> #[trigger] node_val(nodes@, inputs, j) == node_val(orig, inputs, j),
            forall|inputs: Seq<nat>, j: int|
                0 <= j < n ==> (#[trigger] node_ok(nodes@, inputs, j) <==> node_ok(
                    orig,
                    inputs,
                    j,
                )),
            no_mont(orig) && no_redex(orig) ==> nodes@ == orig,
    {
        let node = nodes[i];
        match node {
            Node::MontConstant(c) => {
                let v = mont_reduce_node(&c, &m);
                let nd = Node::Constant(v);
                let ghost prev = nodes@;
                nodes.set(i, nd);
                proof {
                    replace_same_value(prev, i as int, nd, orig, n as int);
                    if no_mont(orig) && no_redex(orig) {
                        assert(prev[i as int] == orig[i as int]);
                        assert(false);
                    }
                }
            },
            Node::Op(op, a, b) => {
                let ca = match nodes[a] {
                    Node::Constant(c) => Some(c),
                    _ => None,
                };
                let cb = match nodes[b] {
                    Node::Constant(c) => Some(c),
                    _ => None,
                };
                if let (Some(ca), Some(cb)) = (ca, cb) {
                    match eval(op, &ca, &cb) {
                        Ok(v) => {
                            let nd = Node::Constant(v);
                            let ghost prev = nodes@;
                            nodes.set(i, nd);
                            proof {
                                assert forall|inputs: Seq<nat>|
                                    node_val(prev.update(i as int, nd), inputs, i as int)
                                        == node_val(prev, inputs, i as int) && node_ok(
                                        prev,
                                        inputs,
                                        i as int,
                                    ) by {
                                    assert(node_val(prev, inputs, a as int) == ca.as_nat());
                                    assert(node_val(prev, inputs, b as int) == cb.as_nat());
                                }
                                replace_same_value(prev, i as int, nd, orig, n as int);
                                if no_mont(orig) && no_redex(orig) {
                                    assert(node_redex(orig, i as int));
                                    assert(false);
                                }
                            }
                        },
                        Err(_) => {},
                    }
                }
            },
            _ => {},
        }
    }
}

/// Constant folding cascades, algebraic simplification and
/// common-subexpression elimination, in one forward pass. Operand indices
/// are first rewritten through the redirect table built so far; an
/// operation on two constants becomes that constant, a node that a rewrite
/// rule reduces to an earlier node or that shares its key (commutative
/// operands unordered) with an earlier node becomes a redirect to it. On
/// canonical inputs no node changes its value, a graph that evaluated
/// without an arithmetic fault still does, and no representative is left
/// that a rule or folding would rewrite.
#[verifier::rlimit(100)]
pub fn simplify_cse(nodes: &mut Vec<Node>) -> (renames: Vec<usize>)
    requires
        nodes_topo(old(nodes)@),
        nodes_canon(old(nodes)@),
    ensures
        final(nodes)@.len() == old(nodes)@.len(),
        renames@.len() == old(nodes)@.len(),
        nodes_topo(final(nodes)@),
        nodes_canon(final(nodes)@),
        no_mont(old(nodes)@) ==> no_mont(final(nodes)@),
        forall|j: int|
            0 <= j < final(nodes)@.len() ==> ((((#[trigger] final(nodes)@[j]) matches Node::Input(
                _,
            )) || (old(nodes)@[j] matches Node::Input(_))) ==> final(nodes)@[j] == old(
                nodes,
            )@[j]),
        forall|j: int| 0 <= j < renames@.len() ==> #[trigger] renames@[j] <= j,
        forall|j: int|
            0 <= j < renames@.len() ==> #[trigger] renames@[renames@[j] as int] == renames@[j],
        forall|inputs: Seq<nat>, j: int|
            inputs_canon(inputs) && 0 <= j < final(nodes)@.len() ==> #[trigger] node_val(
                final(nodes)@,
                inputs,
                j,
            ) == node_val(old(nodes)@, inputs, j),
        forall|inputs: Seq<nat>, j: int|
            inputs_canon(inputs) && 0 <= j < final(nodes)@.len() ==> (node_ok(
                old(nodes)@,
                inputs,
                j,
            ) ==> #[trigger] node_ok(final(nodes)@, inputs, j)),
        forall|inputs: Seq<nat>, j: int|
            inputs_canon(inputs) && 0 <= j < renames@.len() ==> #[trigger] node_val(
                final(nodes)@,
                inputs,
                renames@[j] as int,
            ) == node_val(final(nodes)@, inputs, j),
        // every representative operation points at representatives
        forall|j: int|
            0 <= j < final(nodes)@.len() && renames@[j] == j ==> (match final(nodes)@[j] {
                Node::Op(_, a, b) => renames@[a as int] == a && renames@[b as int] == b,
                _ => true,
            }),
        // no two representatives share a key
        forall|j1: int, j2: int|
            0 <= j1 < j2 < final(nodes)@.len() && renames@[j1] == j1 && renames@[j2] == j2
                ==> !same_key(final(nodes)@[j1], final(nodes)@[j2]),
        // no representative is an operation a rule or folding would rewrite
        forall|j: int|
            0 <= j < final(nodes)@.len() && renames@[j] == j ==> !(#[trigger] node_redex(
                final(nodes)@,
                j,
            )),
        // a graph in normal form passes through unchanged
        no_redex(old(nodes)@) && keys_unique(old(nodes)@) ==> final(nodes)@ == old(nodes)@ && (
        forall|j: int| 0 <= j < renames@.len() ==> #[trigger] renames@[j] == j),
{
    let ghost orig = nodes@;
    let n = nodes.len();
    let mut renames: Vec<usize> = Vec::new();
    let mut reps: Vec<usize> = Vec::new();
    for i in 0..n
        invariant
            n == nodes@.len(),
            nodes@.len() == orig.len(),
            renames@.len() == i,
            nodes_topo(nodes@),
            nodes_canon(nodes@),
            forall|j: int| i <= j < n ==> #[trigger] nodes@[j] == orig[j],
            forall|j: int|
                0 <= j < n ==> (((#[trigger] nodes@[j]) matches Node::MontConstant(_)) ==> nodes@[j]
                    == orig[j]),
            forall|j: int|
                0 <= j < n ==> ((((#[trigger] nodes@[j]) matches Node::Input(_)) || (
                orig[j] matches Node::Input(_))) ==> nodes@[j] == orig[j]),
            forall|j: int| 0 <= j < i ==> #[trigger] renames@[j] <= j,
            forall|j: int|
                0 <= j < i ==> #[trigger] renames@[renames@[j] as int] == renames@[j],
            forall|inputs: Seq<nat>, j: int|
                inputs_canon(inputs) && 0 <= j < n ==> #[trigger] node_val(nodes@, inputs, j)
                    == node_val(orig, inputs, j),
            forall|inputs: Seq<nat>, j: int|
                inputs_canon(inputs) && 0 <= j < n ==> (node_ok(orig, inputs, j)
                    ==> #[trigger] node_ok(nodes@, inputs, j)),
            forall|inputs: Seq<nat>, j: int|
                inputs_canon(inputs) && 0 <= j < i ==> #[trigger] node_val(
                    orig,
                    inputs,
                    renames@[j] as int,
                ) == node_val(orig, inputs, j),
            forall|q: int| 0 <= q < reps@.len() ==> (#[trigger] reps@[q]) < i,
            forall|q: int|
                0 <= q < reps@.len() ==> renames@[#[trigger] reps@[q] as int] == reps@[q],
            forall|q1: int, q2: int|
                0 <= q1 < q2 < reps@.len() ==> !same_key(
                    nodes@[#[trigger] reps@[q1] as int],
                    nodes@[#[trigger] reps@[q2] as int],
                ),
            forall|j: int| 0 <= j < i && renames@[j] == j ==> reps@.contains(j as usize),
            forall|j: int|
                0 <= j < i && renames@[j] == j ==> (match nodes@[j] {
                    Node::Op(_, a, b) => renames@[a as int] == a && renames@[b as int] == b,
                    _ => true,
                }),
            forall|j: int|
                0 <= j < i && renames@[j] == j ==> !(#[trigger] node_redex(nodes@, j)),
            no_redex(orig) && keys_unique(orig) ==> nodes@ == orig && (forall|j: int|
                0 <= j < i ==> #[trigger] renames@[j] == j),
    {
        let node0 = nodes[i];
        let mut redirected = false;
        if let Node::Op(op, a, b) = node0 {
            let a2 = renames[a];
            let b2 = renames[b];
            let nd = Node::Op(op, a2, b2);
            let ghost prev = nodes@;
            nodes.set(i, nd);
            proof {
                lemma_rewrite_operands(prev, orig, renames@, op, i as int, a, b);
                assert forall|j: int|
                    0 <= j < i && renames@[j] == j implies !(#[trigger] node_redex(
                    nodes@,
                    j,
                )) by {
                    lemma_redex_prefix(prev, nodes@, j);
                }
                if no_redex(orig) && keys_unique(orig) {
                    assert(nd == prev[i as int]);
                    assert(nodes@ =~= prev);
                }
            }
            let ca = match nodes[a2] {
                Node::Constant(c) => Some(c),
                _ => None,
            };
            let cb = match nodes[b2] {
                Node::Constant(c) => Some(c),
                _ => None,
            };
            let one = Felt::one();
            let a_zero = match ca {
                Some(c) => c.is_zero(),
                None => false,
            };
            let b_zero = match cb {
                Some(c) => c.is_zero(),
                None => false,
            };
            let a_one = match ca {
                Some(c) => c.is_one(),
                None => false,
            };
            let b_one = match cb {
                Some(c) => c.is_one(),
                None => false,
            };
            let a_nonzero_const = match ca {
                Some(c) => !c.is_zero(),
                None => false,
            };
            let b_nonzero_const = match cb {
                Some(c) => !c.is_zero(),
                None => false,
            };
            // The rule decision: first constant folding, then a redirect
            // target or a constant value from the algebraic rules.
            let mut target: Option<usize> = None;
            let mut cval: Option<Felt> = None;
            if let (Some(cca), Some(ccb)) = (ca, cb) {
                match eval(op, &cca, &ccb) {
                    Ok(v) => {
                        cval = Some(v);
                    },
                    Err(_) => {},
                }
            }
            if cval.is_none() {
                match op {
                Operation::Add => {
                    if a_zero {
                        target = Some(b2);
                    } else if b_zero {
                        target = Some(a2);
                    }
                },
                Operation::Sub => {
                    if a2 == b2 {
                        cval = Some(Felt::zero());
                    } else if b_zero {
                        target = Some(a2);
                    }
                },
                Operation::Mul => {
                    if a_zero {
                        target = Some(a2);
                    } else if b_zero {
                        target = Some(b2);
                    } else if a_one {
                        target = Some(b2);
                    } else if b_one {
                        target = Some(a2);
                    }
                },
                Operation::Div => {
                    if b_one {
                        target = Some(a2);
                    }
                },
                Operation::Pow => {
                    if b_zero {
                        cval = Some(one);
                    } else if b_one {
                        target = Some(a2);
                    }
                },
                Operation::Land => {
                    if a_zero {
                        target = Some(a2);
                    } else if b_zero {
                        target = Some(b2);
                    }
                },
                Operation::Lor => {
                    if a_nonzero_const || b_nonzero_const {
                        cval = Some(one);
                    }
                },
                _ => {},
                }
            }
            if let Some(t) = target {
                proof {
                    assert forall|inputs: Seq<nat>| inputs_canon(inputs) implies #[trigger] node_val(
                        nodes@,
                        inputs,
                        i as int,
                    ) == node_val(nodes@, inputs, t as int) by {
                        crate::graph::lemma_node_val_canonical(nodes@, inputs, a2 as int);
                        crate::graph::lemma_node_val_canonical(nodes@, inputs, b2 as int);
                        lemma_rules(node_val(nodes@, inputs, a2 as int));
                        lemma_rules(node_val(nodes@, inputs, b2 as int));
                    }
                    lemma_redirect_on_orig(nodes@, orig, i as int, t as int);
                    if no_redex(orig) && keys_unique(orig) {
                        assert(node_redex(orig, i as int));
                        assert(false);
                    }
                }
                renames.push(t);
                redirected = true;
            } else if let Some(c) = cval {
                proof {
                    assert forall|inputs: Seq<nat>| inputs_canon(inputs) implies #[trigger] node_val(
                        nodes@,
                        inputs,
                        i as int,
                    ) == c.as_nat() by {
                        crate::graph::lemma_node_val_canonical(nodes@, inputs, a2 as int);
                        crate::graph::lemma_node_val_canonical(nodes@, inputs, b2 as int);
                        lemma_rules(node_val(nodes@, inputs, a2 as int));
                        lemma_rules(node_val(nodes@, inputs, b2 as int));
                    }
                    lemma_replace_const(nodes@, orig, i as int, c);
                    if no_redex(orig) && keys_unique(orig) {
                        assert(node_redex(orig, i as int));
                        assert(false);
                    }
                }
                let ghost prev2 = nodes@;
                nodes.set(i, Node::Constant(c));
                proof {
                    assert(!node_redex(nodes@, i as int));
                    assert forall|j: int|
                        0 <= j < i && renames@[j] == j implies !(#[trigger] node_redex(
                        nodes@,
                        j,
                    )) by {
                        lemma_redex_prefix(prev2, nodes@, j);
                    }
                }
            } else {
                proof {
                    assert(!node_redex(nodes@, i as int));
                }
            }
        } else {
            proof {
                assert(!node_redex(nodes@, i as int));
            }
        }
        if !redirected {
            // Common-subexpression lookup among the representatives so far.
            let node = nodes[i];
            let mut q: usize = 0;
            let mut hit: Option<usize> = None;
            let rl = reps.len();
            while q < rl && hit.is_none()
                invariant
                    rl == reps@.len(),
                    q <= rl,
                    n == nodes@.len(),
                    i < n,
                    forall|q2: int| 0 <= q2 < reps@.len() ==> (#[trigger] reps@[q2]) < i,
                    node == nodes@[i as int],
                    renames@.len() == i,
                    forall|q2: int|
                        0 <= q2 < reps@.len() ==> renames@[#[trigger] reps@[q2] as int]
                            == reps@[q2],
                    match hit {
                        Some(t) => t < i && same_key(nodes@[t as int], node) && renames@[t as int]
                            == t,
                        None => forall|q2: int|
                            0 <= q2 < q ==> !same_key(nodes@[#[trigger] reps@[q2] as int], node),
                    },
                decreases rl - q,
            {
                let t = reps[q];
                if same_key_exec(&nodes[t], &node) {
                    hit = Some(t);
                }
                q += 1;
            }
            if let Some(t) = hit {
                proof {
                    lemma_same_key_same_val(nodes@, i as int, t as int);
                    lemma_redirect_on_orig(nodes@, orig, i as int, t as int);
                    if no_redex(orig) && keys_unique(orig) {
                        assert(same_key(orig[t as int], orig[i as int]));
                        assert(false);
                    }
                }
                renames.push(t);
            } else {
                let ghost reps0 = reps@;
                renames.push(i);
                reps.push(i);
                proof {
                    assert forall|j: int|
                        0 <= j < i + 1 && renames@[j] == j implies reps@.contains(j as usize) by {
                        if j == i as int {
                            assert(reps@[reps@.len() - 1] == i as usize);
                        } else {
                            assert(reps0.contains(j as usize));
                            let q2 = choose|q2: int|
                                0 <= q2 < reps0.len() && reps0[q2] == j as usize;
                            assert(reps@[q2] == j as usize);
                        }
                    }
                }
            }
        }
    }
    proof {
        assert forall|inputs: Seq<nat>, j: int|
            inputs_canon(inputs) && 0 <= j < renames@.len() implies #[trigger] node_val(
            nodes@,
            inputs,
            renames@[j] as int,
        ) == node_val(nodes@, inputs, j) by {
            assert(node_val(orig, inputs, renames@[j] as int) == node_val(orig, inputs, j));
            assert(node_val(nodes@, inputs, j) == node_val(orig, inputs, j));
            assert(node_val(nodes@, inputs, renames@[j] as int) == node_val(
                orig,
                inputs,
                renames@[j] as int,
            ));
        }
        assert forall|j1: int, j2: int|
            0 <= j1 < j2 < nodes@.len() && renames@[j1] == j1 && renames@[j2] == j2 implies !same_key(
            nodes@[j1],
            nodes@[j2],
        ) by {
            assert(reps@.contains(j1 as usize));
            assert(reps@.contains(j2 as usize));
            let q1 = choose|q: int| 0 <= q < reps@.len() && reps@[q] == j1 as usize;
            let q2 = choose|q: int| 0 <= q < reps@.len() && reps@[q] == j2 as usize;
            if q1 < q2 {
                assert(!same_key(nodes@[reps@[q1] as int], nodes@[reps@[q2] as int]));
            } else {
                assert(!same_key(nodes@[reps@[q2] as int], nodes@[reps@[q1] as int]));
                lemma_same_key_sym(nodes@[j1], nodes@[j2]);
            }
        }
    }
    renames
}

/// Dead-code elimination and renumbering: marks every node reachable from
/// an output (outputs first rewritten through the redirect table), keeps
/// exactly the marked nodes in their original order, and rewrites operand
/// and output indices to the new numbering. On the way out every node is
/// reachable from some output and no two nodes share a key.
#[verifier::rlimit(100)]
pub fn compact(nodes: &mut Vec<Node>, outputs: &mut Vec<usize>, renames: &Vec<usize>)
    requires
        nodes_topo(old(nodes)@),
        nodes_canon(old(nodes)@),
        renames@.len() == old(nodes)@.len(),
        forall|j: int| 0 <= j < renames@.len() ==> #[trigger] renames@[j] <= j,
        forall|j: int|
            0 <= j < renames@.len() ==> #[trigger] renames@[renames@[j] as int] == renames@[j],
        forall|inputs: Seq<nat>, j: int|
            inputs_canon(inputs) && 0 <= j < renames@.len() ==> #[trigger] node_val(
                old(nodes)@,
                inputs,
                renames@[j] as int,
            ) == node_val(old(nodes)@, inputs, j),
        forall|j: int|
            0 <= j < old(nodes)@.len() && renames@[j] == j ==> (match old(nodes)@[j] {
                Node::Op(_, a, b) => renames@[a as int] == a && renames@[b as int] == b,
                _ => true,
            }),
        forall|j1: int, j2: int|
            0 <= j1 < j2 < old(nodes)@.len() && renames@[j1] == j1 && renames@[j2] == j2
                ==> !same_key(old(nodes)@[j1], old(nodes)@[j2]),
        forall|j: int|
            0 <= j < old(nodes)@.len() && renames@[j] == j ==> !(#[trigger] node_redex(
                old(nodes)@,
                j,
            )),
        forall|k: int| 0 <= k < old(outputs)@.len() ==> #[trigger] old(outputs)@[k] < old(
            nodes,
        )@.len(),
    ensures
        final(nodes)@.len() <= old(nodes)@.len(),
        nodes_topo(final(nodes)@),
        nodes_canon(final(nodes)@),
        no_mont(old(nodes)@) ==> no_mont(final(nodes)@),
        forall|q: int|
            0 <= q < final(nodes)@.len() ==> ((#[trigger] final(nodes)@[q]) matches Node::Input(
                _,
            ) ==> old(nodes)@.contains(final(nodes)@[q])),
        final(outputs)@.len() == old(outputs)@.len(),
        forall|k: int|
            0 <= k < final(outputs)@.len()
                ==> #[trigger] final(outputs)@[k] < final(nodes)@.len(),
        forall|inputs: Seq<nat>, k: int|
            inputs_canon(inputs) && 0 <= k < final(outputs)@.len() ==> #[trigger] node_val(
                final(nodes)@,
                inputs,
                final(outputs)@[k] as int,
            ) == node_val(old(nodes)@, inputs, old(outputs)@[k] as int),
        forall|inputs: Seq<nat>|
            inputs_canon(inputs) && graph_ok(old(nodes)@, inputs) ==> #[trigger] graph_ok(
                final(nodes)@,
                inputs,
            ),
        // no two surviving nodes share a key
        forall|q1: int, q2: int|
            0 <= q1 < q2 < final(nodes)@.len() ==> !same_key(
                final(nodes)@[q1],
                final(nodes)@[q2],
            ),
        // every surviving node is reachable from an output
        forall|q: int|
            0 <= q < final(nodes)@.len() ==> reachable(final(nodes)@, final(outputs)@, q),
        no_redex(final(nodes)@),
        crate::graph::inputs_leading(old(nodes)@) ==> crate::graph::inputs_leading(
            final(nodes)@,
        ),
        // an identity redirect table over a fully reachable graph passes
        // through unchanged
        (forall|j: int| 0 <= j < renames@.len() ==> #[trigger] renames@[j] == j) && (forall|q: int|
            0 <= q < old(nodes)@.len() ==> reachable(old(nodes)@, old(outputs)@, q))
            ==> final(nodes)@ == old(nodes)@ && final(outputs)@ == old(outputs)@,
{
    let n = nodes.len();
    let ghost oouts = outputs@;
    let ghost idem = (forall|j: int| 0 <= j < renames@.len() ==> #[trigger] renames@[j] == j) && (
    forall|q: int| 0 <= q < old(nodes)@.len() ==> reachable(old(nodes)@, old(outputs)@, q));
    // Rewrite the outputs through the redirect table.
    let no = outputs.len();
    for k in 0..no
        invariant
            no == outputs@.len(),
            oouts.len() == no,
            n == nodes@.len(),
            renames@.len() == n,
            forall|k2: int| 0 <= k2 < no ==> #[trigger] oouts[k2] < n,
            forall|j: int| 0 <= j < n ==> #[trigger] renames@[j] <= j,
            forall|j: int|
                0 <= j < n ==> #[trigger] renames@[renames@[j] as int] == renames@[j],
            forall|k2: int| k <= k2 < no ==> #[trigger] outputs@[k2] == oouts[k2],
            forall|k2: int|
                0 <= k2 < k ==> #[trigger] outputs@[k2] == renames@[oouts[k2] as int],
            idem ==> (forall|j: int| 0 <= j < renames@.len() ==> #[trigger] renames@[j] == j),
    {
        let t = renames[outputs[k]];
        outputs.set(k, t);
    }
    proof {
        if idem {
            assert(outputs@ =~= oouts);
        }
    }
    // Mark the nodes reachable from the outputs.
    let mut live: Vec<bool> = Vec::new();
    for j in 0..n
        invariant
            live@.len() == j,
            forall|j2: int| 0 <= j2 < j ==> !(#[trigger] live@[j2]),
        decreases n - j,
    {
        live.push(false);
    }
    for k in 0..no
        invariant
            no == outputs@.len(),
            n == nodes@.len(),
            renames@.len() == n,
            live@.len() == n,
            forall|k2: int|
                0 <= k2 < no ==> #[trigger] outputs@[k2] < n && renames@[outputs@[k2] as int]
                    == outputs@[k2],
            forall|k2: int| 0 <= k2 < k ==> #[trigger] live@[outputs@[k2] as int],
            forall|j: int|
                0 <= j < n && #[trigger] live@[j] ==> outputs@.contains(j as usize),
            forall|j: int| 0 <= j < n && #[trigger] live@[j] ==> renames@[j] == j,
    {
        live.set(outputs[k], true);
    }
    // Walk backward; a live operation keeps its operands live.
    let mut i = n;
    while i > 0
        invariant
            idem ==> outputs@ == oouts && oouts == old(outputs)@ && nodes@ == old(nodes)@ && (
            forall|q: int| 0 <= q < nodes@.len() ==> reachable(nodes@, outputs@, q)),
            i <= n,
            n == nodes@.len(),
            no == outputs@.len(),
            renames@.len() == n,
            live@.len() == n,
            nodes_topo(nodes@),
            forall|k2: int| 0 <= k2 < no ==> #[trigger] outputs@[k2] < n,
            forall|k2: int| 0 <= k2 < no ==> #[trigger] live@[outputs@[k2] as int],
            forall|j: int|
                i <= j < n && #[trigger] live@[j] ==> (match nodes@[j] {
                    Node::Op(_, a, b) => live@[a as int] && live@[b as int],
                    _ => true,
                }),
            forall|j: int|
                0 <= j < n && #[trigger] live@[j] ==> (outputs@.contains(j as usize) || exists|
                    j2: int,
                |
                    j < j2 < n && #[trigger] live@[j2] && uses(nodes@[j2], j as usize)),
            forall|j: int| 0 <= j < n && #[trigger] live@[j] ==> renames@[j] == j,
            forall|j: int|
                0 <= j < n && #[trigger] renames@[j] == j ==> (match nodes@[j] {
                    Node::Op(_, a, b) => renames@[a as int] == a && renames@[b as int] == b,
                    _ => true,
                }),
        decreases i,
    {
        i -= 1;
        if live[i] {
            if let Node::Op(_, a, b) = nodes[i] {
                let ghost live_prev = live@;
                live.set(a, true);
                live.set(b, true);
                proof {
                    assert forall|j: int| 0 <= j < n && #[trigger] live@[j] implies (
                    outputs@.contains(j as usize) || exists|j2: int|
                        j < j2 < n && #[trigger] live@[j2] && uses(nodes@[j2], j as usize)) by {
                        if j == a as int || j == b as int {
                            assert(live@[i as int]);
                            assert(uses(nodes@[i as int], j as usize));
                        } else {
                            assert(live_prev[j]);
                            if !outputs@.contains(j as usize) {
                                let j2 = choose|j2: int|
                                    j < j2 < n && #[trigger] live_prev[j2] && uses(
                                        nodes@[j2],
                                        j as usize,
                                    );
                                assert(live@[j2]);
                            }
                        }
                    }
                    assert forall|j: int| 0 <= j < n && #[trigger] live@[j] implies renames@[j]
                        == j by {
                        if j == a as int || j == b as int {
                            assert(live_prev[i as int]);
                            assert(renames@[i as int] == i);
                            assert(nodes@[i as int] matches Node::Op(_, x, y) ==> renames@[x as int]
                                == x && renames@[y as int] == y);
                        } else {
                            assert(live_prev[j]);
                        }
                    }
                }
            }
        }
    }
    proof {
        if idem {
            assert forall|q: int| 0 <= q < n implies #[trigger] live@[q] by {
                lemma_reachable_live(nodes@, outputs@, live@, q);
            }
        }
    }
    // Keep the live nodes, renumbering operands and outputs.
    let mut new_nodes: Vec<Node> = Vec::new();
    let mut new_index: Vec<usize> = Vec::new();
    let ghost liveg = live@;
    let ghost mut pre: Seq<int> = Seq::empty();
    for j in 0..n
        invariant
            n == nodes@.len(),
            live@ == liveg,
            pre.len() == new_nodes@.len(),
            forall|q: int|
                0 <= q < pre.len() ==> 0 <= #[trigger] pre[q] < j && live@[pre[q]]
                    && new_index@[pre[q]] == q,
            live@.len() == n,
            new_index@.len() == j,
            new_nodes@.len() <= j,
            nodes_topo(nodes@),
            nodes_canon(nodes@),
            nodes_topo(new_nodes@),
            nodes_canon(new_nodes@),
            forall|t: int|
                0 <= t < n && #[trigger] live@[t] ==> (match nodes@[t] {
                    Node::Op(_, a, b) => live@[a as int] && live@[b as int],
                    _ => true,
                }),
            forall|t: int|
                0 <= t < j && #[trigger] live@[t] ==> new_index@[t] < new_nodes@.len(),
            forall|t: int|
                0 <= t < j && #[trigger] live@[t] ==> (match nodes@[t] {
                    Node::Op(op, a, b) => new_nodes@[new_index@[t] as int] == Node::Op(
                        op,
                        new_index@[a as int],
                        new_index@[b as int],
                    ),
                    _ => new_nodes@[new_index@[t] as int] == nodes@[t],
                }),
            forall|t1: int, t2: int|
                0 <= t1 < t2 < j && live@[t1] && live@[t2] ==> new_index@[t1] < new_index@[t2],
            forall|inputs: Seq<nat>, t: int|
                inputs_canon(inputs) && 0 <= t < j && live@[t] ==> #[trigger] node_val(
                    new_nodes@,
                    inputs,
                    new_index@[t] as int,
                ) == node_val(nodes@, inputs, t),
            forall|inputs: Seq<nat>, t: int|
                inputs_canon(inputs) && 0 <= t < j && live@[t] && node_ok(nodes@, inputs, t)
                    ==> #[trigger] node_ok(new_nodes@, inputs, new_index@[t] as int),
            idem ==> (forall|q2: int| 0 <= q2 < n ==> #[trigger] live@[q2]),
            idem ==> new_nodes@ == nodes@.subrange(0, j as int) && (forall|t: int|
                0 <= t < j ==> #[trigger] new_index@[t] == t),
    {
        if live[j] {
            let q = new_nodes.len();
            let nd = match nodes[j] {
                Node::Op(op, a, b) => Node::Op(op, new_index[a], new_index[b]),
                other => other,
            };
            let ghost prev_new = new_nodes@;
            new_nodes.push(nd);
            new_index.push(q);
            proof {
                pre = pre.push(j as int);
                assert forall|inputs: Seq<nat>, t: int|
                    inputs_canon(inputs) && 0 <= t < j + 1 && live@[t] implies #[trigger] node_val(
                    new_nodes@,
                    inputs,
                    new_index@[t] as int,
                ) == node_val(nodes@, inputs, t) by {
                    if t < j {
                        crate::graph::lemma_val_prefix(
                            prev_new,
                            new_nodes@,
                            inputs,
                            new_index@[t] as int,
                        );
                    } else {
                        match nodes@[t] {
                            Node::Op(op, a, b) => {
                                crate::graph::lemma_val_prefix(
                                    prev_new,
                                    new_nodes@,
                                    inputs,
                                    new_index@[a as int] as int,
                                );
                                crate::graph::lemma_val_prefix(
                                    prev_new,
                                    new_nodes@,
                                    inputs,
                                    new_index@[b as int] as int,
                                );
                            },
                            _ => {},
                        }
                    }
                }
                assert forall|inputs: Seq<nat>, t: int|
                    inputs_canon(inputs) && 0 <= t < j + 1 && live@[t] && node_ok(
                        nodes@,
                        inputs,
                        t,
                    ) implies #[trigger] node_ok(new_nodes@, inputs, new_index@[t] as int) by {
                    if t < j {
                        crate::graph::lemma_val_prefix(
                            prev_new,
                            new_nodes@,
                            inputs,
                            new_index@[t] as int,
                        );
                    } else {
                        match nodes@[t] {
                            Node::Op(op, a, b) => {
                                assert(node_val(new_nodes@, inputs, new_index@[a as int] as int)
                                    == node_val(nodes@, inputs, a as int));
                                assert(node_val(new_nodes@, inputs, new_index@[b as int] as int)
                                    == node_val(nodes@, inputs, b as int));
                            },
                            _ => {},
                        }
                    }
                }
                if idem {
                    assert(prev_new == nodes@.subrange(0, j as int));
                    assert(q == j);
                    assert(nd == nodes@[j as int]);
                    assert(new_nodes@ =~= nodes@.subrange(0, j + 1));
                }
            }
        } else {
            proof {
                if idem {
                    assert(live@[j as int]);
                    assert(false);
                }
            }
            new_index.push(0);
        }
    }
    // Point the outputs at the new numbering.
    let ghost routs = outputs@;
    for k in 0..no
        invariant
            no == outputs@.len(),
            routs.len() == no,
            n == nodes@.len(),
            live@.len() == n,
            new_index@.len() == n,
            forall|k2: int| 0 <= k2 < no ==> #[trigger] routs[k2] < n && live@[routs[k2] as int],
            forall|t: int|
                0 <= t < n && #[trigger] live@[t] ==> new_index@[t] < new_nodes@.len(),
            forall|k2: int| k <= k2 < no ==> #[trigger] outputs@[k2] == routs[k2],
            forall|k2: int|
                0 <= k2 < k ==> #[trigger] outputs@[k2] == new_index@[routs[k2] as int],
            idem ==> routs == old(outputs)@ && (forall|t: int|
                0 <= t < n ==> #[trigger] new_index@[t] == t),
    {
        let t = new_index[outputs[k]];
        outputs.set(k, t);
    }
    proof {
        if idem {
            assert(outputs@ =~= old(outputs)@);
            assert(new_nodes@ =~= nodes@);
        }
        // Uniqueness of keys among the survivors.
        assert forall|q1: int, q2: int| 0 <= q1 < q2 < new_nodes@.len() implies !same_key(
            new_nodes@[q1],
            new_nodes@[q2],
        ) by {
            let t1 = pre[q1];
            let t2 = pre[q2];
            assert(t1 != t2);
            if t2 < t1 {
                assert(new_index@[t2] < new_index@[t1]);
            }
            assert(t1 < t2);
            assert(!same_key(nodes@[t1], nodes@[t2]));
            if same_key(new_nodes@[q1], new_nodes@[q2]) {
                match (nodes@[t1], nodes@[t2]) {
                    (Node::Op(o1, a1, b1), Node::Op(o2, a2, b2)) => {
                        assert(liveg[a1 as int] && liveg[b1 as int] && liveg[a2 as int]
                            && liveg[b2 as int]);
                        assert(new_nodes@[q1] == Node::Op(
                            o1,
                            new_index@[a1 as int],
                            new_index@[b1 as int],
                        ));
                        assert(new_nodes@[q2] == Node::Op(
                            o2,
                            new_index@[a2 as int],
                            new_index@[b2 as int],
                        ));
                        lemma_new_index_injective(liveg, new_index@, a1 as int, a2 as int);
                        lemma_new_index_injective(liveg, new_index@, a1 as int, b2 as int);
                        lemma_new_index_injective(liveg, new_index@, b1 as int, a2 as int);
                        lemma_new_index_injective(liveg, new_index@, b1 as int, b2 as int);
                        assert(false);
                    },
                    _ => {
                        assert(new_nodes@[q1] == nodes@[t1]);
                        assert(new_nodes@[q2] == nodes@[t2]);
                        assert(false);
                    },
                }
            }
        }
        // Reachability of every survivor.
        assert forall|q: int| 0 <= q < new_nodes@.len() implies reachable(
            new_nodes@,
            outputs@,
            q,
        ) by {
            let t = pre[q];
            lemma_live_reachable(nodes@, liveg, routs, new_nodes@, outputs@, new_index@, t);
        }
        // No surviving node is a Montgomery constant unless one was there.
        if no_mont(nodes@) {
            assert forall|q: int| 0 <= q < new_nodes@.len() implies !((
            #[trigger] new_nodes@[q]) matches Node::MontConstant(_)) by {
                let t = pre[q];
                assert(!(nodes@[t] matches Node::MontConstant(_)));
            }
        }
        // No rewritable operation survives.
        assert forall|q: int| 0 <= q < new_nodes@.len() implies !node_redex(new_nodes@, q) by {
            let t = pre[q];
            assert(liveg[t]);
            assert(renames@[t] == t);
            assert(!node_redex(nodes@, t));
            match nodes@[t] {
                Node::Op(op, a, b) => {
                    assert(liveg[a as int] && liveg[b as int]);
                    assert(new_nodes@[q] == Node::Op(
                        op,
                        new_index@[a as int],
                        new_index@[b as int],
                    ));
                    if node_redex(new_nodes@, q) {
                        let qa = new_index@[a as int];
                        let qb = new_index@[b as int];
                        assert(match nodes@[a as int] {
                            Node::Op(o2, x, y) => new_nodes@[qa as int] == Node::Op(
                                o2,
                                new_index@[x as int],
                                new_index@[y as int],
                            ),
                            _ => new_nodes@[qa as int] == nodes@[a as int],
                        });
                        assert(match nodes@[b as int] {
                            Node::Op(o2, x, y) => new_nodes@[qb as int] == Node::Op(
                                o2,
                                new_index@[x as int],
                                new_index@[y as int],
                            ),
                            _ => new_nodes@[qb as int] == nodes@[b as int],
                        });
                        lemma_new_index_injective(liveg, new_index@, a as int, b as int);
                        assert(op_redex(op, a, b, nodes@[a as int], nodes@[b as int]));
                        assert(false);
                    }
                },
                _ => {
                    assert(new_nodes@[q] == nodes@[t]);
                },
            }
        }
        // Inputs that stood together still do.
        if crate::graph::inputs_leading(nodes@) {
            assert forall|i1: int, j1: int, k1: int|
                #![trigger new_nodes@[i1], new_nodes@[j1], new_nodes@[k1]]
                0 <= i1 < j1 < k1 < new_nodes@.len() && (new_nodes@[i1] matches Node::Input(_))
                    && (new_nodes@[k1] matches Node::Input(_)) implies (
            new_nodes@[j1] matches Node::Input(_)) by {
                let ti = pre[i1];
                let tj = pre[j1];
                let tk = pre[k1];
                if tj <= ti {
                    if tj < ti {
                        assert(new_index@[tj] < new_index@[ti]);
                    }
                    assert(false);
                }
                if tk <= tj {
                    if tk < tj {
                        assert(new_index@[tk] < new_index@[tj]);
                    }
                    assert(false);
                }
                assert(new_nodes@[i1] == nodes@[ti]);
                assert(new_nodes@[k1] == nodes@[tk]);
                assert(nodes@[ti] matches Node::Input(_) && nodes@[tk] matches Node::Input(_));
                assert(nodes@[tj] matches Node::Input(_));
                assert(new_nodes@[j1] == nodes@[tj]);
            }
        }
        // The survivors that read inputs come from the original list.
        assert forall|q: int|
            0 <= q < new_nodes@.len() && ((#[trigger] new_nodes@[q]) matches Node::Input(
                _,
            )) implies nodes@.contains(new_nodes@[q]) by {
            let t = pre[q];
            assert(new_nodes@[q] == nodes@[t]);
        }
        // Definedness carries over to the survivors.
        assert forall|inputs: Seq<nat>|
            inputs_canon(inputs) && graph_ok(nodes@, inputs) implies #[trigger] graph_ok(
            new_nodes@,
            inputs,
        ) by {
            assert forall|q: int| 0 <= q < new_nodes@.len() implies node_ok(
                new_nodes@,
                inputs,
                q,
            ) by {
                let t = pre[q];
                assert(node_ok(nodes@, inputs, t));
            }
        }
    }
    *nodes = new_nodes;
}

/// A reachability witness names a concrete later user.
proof fn lemma_reachable_via_user(nodes: Seq<Node>, outputs: Seq<usize>, j: int, lo: int)
    requires
        crate::graph::reachable_via(nodes, outputs, j, lo),
    ensures
        exists|w: int|
            lo <= w < nodes.len() && #[trigger] uses(nodes[w], j as usize) && reachable(
                nodes,
                outputs,
                w,
            ),
    decreases nodes.len() - lo,
{
    if lo < nodes.len() {
        if uses(nodes[lo], j as usize) && reachable(nodes, outputs, lo) {
        } else {
            lemma_reachable_via_user(nodes, outputs, j, lo + 1);
        }
    }
}

/// A marking that contains the outputs and is closed under operands of
/// marked operations contains every reachable node.
proof fn lemma_reachable_live(nodes: Seq<Node>, outputs: Seq<usize>, live: Seq<bool>, j: int)
    requires
        live.len() == nodes.len(),
        forall|t: int|
            0 <= t < nodes.len() && #[trigger] live[t] ==> (match nodes[t] {
                Node::Op(_, a, b) => live[a as int] && live[b as int],
                _ => true,
            }),
        forall|k: int|
            0 <= k < outputs.len() ==> #[trigger] outputs[k] < nodes.len() && live[outputs[
                k
            ] as int],
        nodes_topo(nodes),
        nodes.len() <= usize::MAX,
        0 <= j < nodes.len(),
        reachable(nodes, outputs, j),
    ensures
        live[j],
    decreases nodes.len() - j,
{
    if outputs.contains(j as usize) {
        let k = choose|k: int| 0 <= k < outputs.len() && #[trigger] outputs[k] == j as usize;
        assert(live[outputs[k] as int]);
    } else {
        lemma_reachable_via_user(nodes, outputs, j, j + 1);
        let w = choose|w: int|
            j + 1 <= w < nodes.len() && #[trigger] uses(nodes[w], j as usize) && reachable(
                nodes,
                outputs,
                w,
            );
        lemma_reachable_live(nodes, outputs, live, w);
        assert(match nodes[w] {
            Node::Op(_, a, b) => live[a as int] && live[b as int],
            _ => true,
        });
    }
}

/// A strictly monotone index map is injective on the live nodes.
proof fn lemma_new_index_injective(live: Seq<bool>, ni: Seq<usize>, t1: int, t2: int)
    requires
        live.len() == ni.len(),
        0 <= t1 < ni.len(),
        0 <= t2 < ni.len(),
        live[t1],
        live[t2],
        forall|u1: int, u2: int|
            0 <= u1 < u2 < ni.len() && live[u1] && live[u2] ==> ni[u1] < ni[u2],
    ensures
        ni[t1] == ni[t2] ==> t1 == t2,
{
    if ni[t1] == ni[t2] && t1 != t2 {
        if t1 < t2 {
            assert(ni[t1] < ni[t2]);
        } else {
            assert(ni[t2] < ni[t1]);
        }
    }
}

/// A marked node maps to a node reachable from the rewritten outputs in the
/// renumbered graph.
proof fn lemma_live_reachable(
    nodes: Seq<Node>,
    live: Seq<bool>,
    outs: Seq<usize>,
    new_nodes: Seq<Node>,
    new_outs: Seq<usize>,
    ni: Seq<usize>,
    j: int,
)
    requires
        live.len() == nodes.len(),
        ni.len() == nodes.len(),
        nodes.len() <= usize::MAX,
        0 <= j < nodes.len(),
        live[j],
        nodes_topo(nodes),
        forall|t: int|
            0 <= t < nodes.len() && #[trigger] live[t] ==> (outs.contains(t as usize) || exists|
                t2: int,
            | t < t2 < nodes.len() && #[trigger] live[t2] && uses(nodes[t2], t as usize)),
        forall|t: int|
            0 <= t < nodes.len() && #[trigger] live[t] ==> ni[t] < new_nodes.len(),
        forall|t: int|
            0 <= t < nodes.len() && #[trigger] live[t] ==> (match nodes[t] {
                Node::Op(op, a, b) => new_nodes[ni[t] as int] == Node::Op(
                    op,
                    ni[a as int],
                    ni[b as int],
                ),
                _ => new_nodes[ni[t] as int] == nodes[t],
            }),
        forall|t: int|
            0 <= t < nodes.len() && #[trigger] live[t] ==> (match nodes[t] {
                Node::Op(_, a, b) => live[a as int] && live[b as int],
                _ => true,
            }),
        forall|t1: int, t2: int|
            0 <= t1 < t2 < nodes.len() && live[t1] && live[t2] ==> ni[t1] < ni[t2],
        new_outs.len() == outs.len(),
        forall|k: int|
            0 <= k < outs.len() ==> #[trigger] outs[k] < nodes.len() && live[outs[k] as int]
                && new_outs[k] == ni[outs[k] as int],
    ensures
        reachable(new_nodes, new_outs, ni[j] as int),
    decreases nodes.len() - j,
{
    assert(ni[j] < new_nodes.len());
    if outs.contains(j as usize) {
        let k = choose|k: int| 0 <= k < outs.len() && #[trigger] outs[k] == j as usize;
        assert(outs[k] < nodes.len() && live[outs[k] as int] && new_outs[k] == ni[outs[
            k
        ] as int]);
        assert(new_outs[k] == ni[j]);
        assert(new_outs.contains(ni[j]));
        assert(reachable(new_nodes, new_outs, ni[j] as int));
    } else {
        let j2 = choose|t2: int|
            j < t2 < nodes.len() && #[trigger] live[t2] && uses(nodes[t2], j as usize);
        lemma_live_reachable(nodes, live, outs, new_nodes, new_outs, ni, j2);
        assert(ni[j] < ni[j2]);
        match nodes[j2] {
            Node::Op(op, a, b) => {
                assert(live[a as int] && live[b as int]);
                assert(new_nodes[ni[j2] as int] == Node::Op(op, ni[a as int], ni[b as int]));
                assert(a == j as usize || b == j as usize);
                assert(uses(new_nodes[ni[j2] as int], ni[j]));
            },
            _ => {
                assert(false);
            },
        }
        assert(reachable(new_nodes, new_outs, ni[j2] as int) && ni[j] < ni[j2] < new_nodes.len()
            && uses(new_nodes[ni[j2] as int], ni[j]));
        crate::graph::lemma_reachable_step(new_nodes, new_outs, ni[j] as int, ni[j2] as int);
    }
}

/// The whole optimization pipeline: constant folding, algebraic
/// simplification with common-subexpression elimination, then dead-code
/// elimination with renumbering. The result is a topologically valid graph
/// of canonical constants without Montgomery forms, in which nothing a
/// rewrite rule or folding would change survives, no two nodes denote the
/// same expression, no two constants hold the same value, and every node
/// serves some output; on every canonical input buffer it yields the same
/// witness values as the graph it was given, and it evaluates without an
/// arithmetic fault whenever that graph did. Input nodes that stood
/// together (as recording produces them) still do, so the optimized graph
/// keeps its input references below the input size it reports.
pub fn optimize(nodes: &mut Vec<Node>, outputs: &mut Vec<usize>)
    requires
        nodes_topo(old(nodes)@),
        nodes_canon(old(nodes)@),
        forall|k: int| 0 <= k < old(outputs)@.len() ==> #[trigger] old(outputs)@[k] < old(
            nodes,
        )@.len(),
    ensures
        nodes_topo(final(nodes)@),
        nodes_canon(final(nodes)@),
        no_mont(final(nodes)@),
        final(nodes)@.len() <= old(nodes)@.len(),
        final(outputs)@.len() == old(outputs)@.len(),
        forall|k: int|
            0 <= k < final(outputs)@.len()
                ==> #[trigger] final(outputs)@[k] < final(nodes)@.len(),
        forall|q: int|
            0 <= q < final(nodes)@.len() ==> ((#[trigger] final(nodes)@[q]) matches Node::Input(
                _,
            ) ==> old(nodes)@.contains(final(nodes)@[q])),
        forall|inputs: Seq<nat>, k: int|
            inputs_canon(inputs) && 0 <= k < final(outputs)@.len() ==> #[trigger] node_val(
                final(nodes)@,
                inputs,
                final(outputs)@[k] as int,
            ) == node_val(old(nodes)@, inputs, old(outputs)@[k] as int),
        forall|inputs: Seq<nat>|
            inputs_canon(inputs) && graph_ok(old(nodes)@, inputs) ==> #[trigger] graph_ok(
                final(nodes)@,
                inputs,
            ),
        forall|q1: int, q2: int|
            0 <= q1 < q2 < final(nodes)@.len() ==> !same_key(
                final(nodes)@[q1],
                final(nodes)@[q2],
            ),
        // no two surviving constants hold the same value
        forall|q1: int, q2: int|
            #![trigger final(nodes)@[q1], final(nodes)@[q2]]
            0 <= q1 < q2 < final(nodes)@.len() ==> (match (final(nodes)@[q1], final(nodes)@[q2]) {
                (Node::Constant(c1), Node::Constant(c2)) => c1.as_nat() != c2.as_nat(),
                _ => true,
            }),
        forall|q: int|
            0 <= q < final(nodes)@.len() ==> reachable(final(nodes)@, final(outputs)@, q),
        no_redex(final(nodes)@),
        keys_unique(final(nodes)@),
        // a graph already in the optimizer's normal form is a fixed point,
        // so optimizing twice equals optimizing once
        no_mont(old(nodes)@) && no_redex(old(nodes)@) && keys_unique(old(nodes)@) && (forall|
            q: int,
        | 0 <= q < old(nodes)@.len() ==> reachable(old(nodes)@, old(outputs)@, q))
            ==> final(nodes)@ == old(nodes)@ && final(outputs)@ == old(outputs)@,
        forall|n2: nat|
            crate::graph::inputs_within(old(nodes)@, n2) ==> #[trigger] crate::graph::inputs_within(
                final(nodes)@,
                n2,
            ),
        crate::graph::inputs_leading(old(nodes)@) ==> crate::graph::inputs_leading(
            final(nodes)@,
        ) && crate::graph::inputs_bounded(final(nodes)@),
{
    let ghost orig = nodes@;
    let ghost oouts = outputs@;
    fold_constants(nodes);
    let ghost mid1 = nodes@;
    let renames = simplify_cse(nodes);
    let ghost mid2 = nodes@;
    proof {
        assert forall|inputs: Seq<nat>, j: int|
            inputs_canon(inputs) && 0 <= j < mid2.len() implies #[trigger] node_val(
            mid2,
            inputs,
            j,
        ) == node_val(orig, inputs, j) && (node_ok(orig, inputs, j) ==> node_ok(
            mid2,
            inputs,
            j,
        )) by {
            assert(node_val(mid1, inputs, j) == node_val(orig, inputs, j));
            assert(node_val(mid2, inputs, j) == node_val(mid1, inputs, j));
            assert(node_ok(mid1, inputs, j) <==> node_ok(orig, inputs, j));
        }
    }
    proof {
        if crate::graph::inputs_leading(orig) {
            assert forall|i1: int, j1: int, k1: int|
                #![trigger mid1[i1], mid1[j1], mid1[k1]]
                0 <= i1 < j1 < k1 < mid1.len() && (mid1[i1] matches Node::Input(_)) && (
                mid1[k1] matches Node::Input(_)) implies (mid1[j1] matches Node::Input(_)) by {
                assert(mid1[i1] == orig[i1]);
                assert(mid1[k1] == orig[k1]);
                assert(orig[j1] matches Node::Input(_));
                assert(mid1[j1] == orig[j1]);
            }
            assert forall|i1: int, j1: int, k1: int|
                #![trigger mid2[i1], mid2[j1], mid2[k1]]
                0 <= i1 < j1 < k1 < mid2.len() && (mid2[i1] matches Node::Input(_)) && (
                mid2[k1] matches Node::Input(_)) implies (mid2[j1] matches Node::Input(_)) by {
                assert(mid2[i1] == mid1[i1]);
                assert(mid2[k1] == mid1[k1]);
                assert(mid1[j1] matches Node::Input(_));
                assert(mid2[j1] == mid1[j1]);
            }
            assert(crate::graph::inputs_leading(mid2));
        }
    }
    compact(nodes, outputs, &renames);
    proof {
        assert forall|n2: nat|
            crate::graph::inputs_within(orig, n2) implies #[trigger] crate::graph::inputs_within(
            nodes@,
            n2,
        ) by {
            assert forall|q: int|
                0 <= q < nodes@.len() implies (#[trigger] nodes@[q] matches Node::Input(s) ==> s
                < n2) by {
                if nodes@[q] matches Node::Input(_) {
                    assert(mid2.contains(nodes@[q]));
                    let t = choose|t: int| 0 <= t < mid2.len() && mid2[t] == nodes@[q];
                    assert(mid2[t] == orig[t]);
                }
            }
        }
        if crate::graph::inputs_leading(orig) {
            crate::graph::lemma_leading_bounded(nodes@);
        }
        if no_mont(orig) && no_redex(orig) && keys_unique(orig) && (forall|q: int|
            0 <= q < orig.len() ==> reachable(orig, oouts, q)) {
            assert(mid1 == orig);
            assert(mid2 == orig);
            assert(nodes@ == orig && outputs@ == oouts);
        }
        assert forall|q1: int, q2: int|
            #![trigger nodes@[q1], nodes@[q2]]
            0 <= q1 < q2 < nodes@.len() implies (match (
        nodes@[q1],
        nodes@[q2],
        ) {
            (Node::Constant(c1), Node::Constant(c2)) => c1.as_nat() != c2.as_nat(),
            _ => true,
        }) by {
            match (nodes@[q1], nodes@[q2]) {
                (Node::Constant(c1), Node::Constant(c2)) => {
                    if c1.as_nat() == c2.as_nat() {
                        crate::field::lemma_as_nat_injective(c1, c2);
                        assert(same_key(nodes@[q1], nodes@[q2]));
                        assert(false);
                    }
                },
                _ => {},
            }
        }
        assert forall|inputs: Seq<nat>, k: int|
            inputs_canon(inputs) && 0 <= k < outputs@.len() implies #[trigger] node_val(
            nodes@,
            inputs,
            outputs@[k] as int,
        ) == node_val(orig, inputs, oouts[k] as int) by {
            assert(node_val(nodes@, inputs, outputs@[k] as int) == node_val(
                mid2,
                inputs,
                oouts[k] as int,
            ));
            assert(node_val(mid2, inputs, oouts[k] as int) == node_val(
                orig,
                inputs,
                oouts[k] as int,
            ));
        }
        assert forall|inputs: Seq<nat>|
            inputs_canon(inputs) && graph_ok(orig, inputs) implies #[trigger] graph_ok(
            nodes@,
            inputs,
        ) by {
            assert forall|j: int| 0 <= j < mid2.len() implies node_ok(mid2, inputs, j) by {
                assert(node_ok(orig, inputs, j));
            }
            assert(graph_ok(mid2, inputs));
        }
        assert forall|q: int|
            0 <= q < nodes@.len() && ((#[trigger] nodes@[q]) matches Node::Input(_)) implies orig.contains(
            nodes@[q],
        ) by {
            assert(mid2.contains(nodes@[q]));
            let t = choose|t: int| 0 <= t < mid2.len() && mid2[t] == nodes@[q];
            assert(mid2[t] == orig[t]);
        }
    }
}

/// A constant node holding zero.
pub open spec fn const_zero(n: Node) -> bool {
    n matches Node::Constant(c) && c.as_nat() == 0
}

/// A constant node holding one.
pub open spec fn const_one(n: Node) -> bool {
    n matches Node::Constant(c) && c.as_nat() == 1
}

/// A constant node holding a nonzero value.
pub open spec fn const_nonzero(n: Node) -> bool {
    n matches Node::Constant(c) && c.as_nat() != 0
}

/// An operation the optimizer rewrites: one on two constants it can
/// evaluate, or one of the algebraic patterns of the rewrite set.
pub open spec fn op_redex(op: Operation, a: usize, b: usize, na: Node, nb: Node) -> bool {
    ||| (match (na, nb) {
        (Node::Constant(ca), Node::Constant(cb)) => eval_ok(op, ca.as_nat(), cb.as_nat()),
        _ => false,
    })
    ||| (op == Operation::Sub && a == b)
    ||| (op == Operation::Add && (const_zero(na) || const_zero(nb)))
    ||| (op == Operation::Sub && const_zero(nb))
    ||| (op == Operation::Mul && (const_zero(na) || const_zero(nb) || const_one(na) || const_one(
        nb,
    )))
    ||| (op == Operation::Div && const_one(nb))
    ||| (op == Operation::Pow && (const_zero(nb) || const_one(nb)))
    ||| (op == Operation::Land && (const_zero(na) || const_zero(nb)))
    ||| (op == Operation::Lor && (const_nonzero(na) || const_nonzero(nb)))
}

/// Whether node `i` is an operation the optimizer would still rewrite.
pub open spec fn node_redex(nodes: Seq<Node>, i: int) -> bool {
    match nodes[i] {
        Node::Op(op, a, b) => a < i && b < i && op_redex(op, a, b, nodes[a as int], nodes[b as int]),
        _ => false,
    }
}

/// No node is left that a rewrite rule or constant folding would change.
pub open spec fn no_redex(nodes: Seq<Node>) -> bool {
    forall|i: int| 0 <= i < nodes.len() ==> !node_redex(nodes, i)
}

/// Whether a node is a rewritable operation depends only on the nodes up
/// to it.
proof fn lemma_redex_prefix(n1: Seq<Node>, n2: Seq<Node>, j: int)
    requires
        0 <= j < n1.len(),
        j < n2.len(),
        forall|t: int| 0 <= t <= j ==> n1[t] == n2[t],
    ensures
        node_redex(n1, j) == node_redex(n2, j),
{
}

/// Operators whose operands may be swapped without changing the value.
pub open spec fn is_comm(op: Operation) -> bool {
    match op {
        Operation::Add => true,
        Operation::Mul => true,
        Operation::Eq => true,
        Operation::Neq => true,
        Operation::Band => true,
        Operation::Bor => true,
        Operation::Bxor => true,
        Operation::Land => true,
        Operation::Lor => true,
        _ => false,
    }
}

/// Two nodes that denote the same expression: equal, or the same
/// commutative operation with the operands swapped.
pub open spec fn same_key(x: Node, y: Node) -> bool {
    x == y || (match (x, y) {
        (Node::Op(o1, a1, b1), Node::Op(o2, a2, b2)) => o1 == o2 && is_comm(o1) && a1 == b2 && b1
            == a2,
        _ => false,
    })
}

/// No two nodes denote the same expression.
pub open spec fn keys_unique(nodes: Seq<Node>) -> bool {
    forall|q1: int, q2: int|
        #![trigger nodes[q1], nodes[q2]]
        0 <= q1 < q2 < nodes.len() ==> !same_key(nodes[q1], nodes[q2])
}

fn is_comm_exec(op: Operation) -> (r: bool)
    ensures
        r == is_comm(op),
{
    match op {
        Operation::Add => true,
        Operation::Mul => true,
        Operation::Eq => true,
        Operation::Neq => true,
        Operation::Band => true,
        Operation::Bor => true,
        Operation::Bxor => true,
        Operation::Land => true,
        Operation::Lor => true,
        _ => false,
    }
}

fn same_key_exec(x: &Node, y: &Node) -> (r: bool)
    ensures
        r == same_key(*x, *y),
{
    if *x == *y {
        true
    } else {
        match (x, y) {
            (Node::Op(o1, a1, b1), Node::Op(o2, a2, b2)) => *o1 == *o2 && is_comm_exec(*o1) && *a1
                == *b2 && *b1 == *a2,
            _ => false,
        }
    }
}

/// Bitwise and is symmetric.
proof fn lemma_band_comm(a: nat, b: nat)
    ensures
        crate::field::band_nat(a, b) == crate::field::band_nat(b, a),
    decreases a + b,
{
    if !(a == 0 || b == 0) {
        lemma_band_comm(a / 2, b / 2);
    }
}

/// Bitwise or is symmetric.
proof fn lemma_bor_comm(a: nat, b: nat)
    ensures
        crate::field::bor_nat(a, b) == crate::field::bor_nat(b, a),
    decreases a + b,
{
    if !(a == 0 && b == 0) {
        lemma_bor_comm(a / 2, b / 2);
    }
}

/// Bitwise exclusive or is symmetric.
proof fn lemma_bxor_comm(a: nat, b: nat)
    ensures
        crate::field::bxor_nat(a, b) == crate::field::bxor_nat(b, a),
    decreases a + b,
{
    if !(a == 0 && b == 0) {
        lemma_bxor_comm(a / 2, b / 2);
    }
}

/// A commutative operator gives the same value on swapped operands.
proof fn lemma_eval_op_comm(op: Operation, x: nat, y: nat)
    requires
        is_comm(op),
    ensures
        eval_op(op, x, y) == eval_op(op, y, x),
{
    match op {
        Operation::Band => lemma_band_comm(x, y),
        Operation::Bor => lemma_bor_comm(x, y),
        Operation::Bxor => lemma_bxor_comm(x, y),
        _ => {},
    }
}

/// Two nodes of the same key take the same value on every input buffer.
proof fn lemma_same_key_same_val(nodes: Seq<Node>, i: int, t: int)
    requires
        nodes_topo(nodes),
        0 <= t < nodes.len(),
        0 <= i < nodes.len(),
        same_key(nodes[i], nodes[t]),
    ensures
        forall|inputs: Seq<nat>|
            #[trigger] node_val(nodes, inputs, i) == node_val(nodes, inputs, t),
{
    assert forall|inputs: Seq<nat>| #[trigger] node_val(nodes, inputs, i) == node_val(
        nodes,
        inputs,
        t,
    ) by {
        if nodes[i] == nodes[t] {
        } else {
            match (nodes[i], nodes[t]) {
                (Node::Op(o1, a1, b1), Node::Op(o2, a2, b2)) => {
                    lemma_eval_op_comm(
                        o1,
                        node_val(nodes, inputs, a1 as int),
                        node_val(nodes, inputs, b1 as int),
                    );
                },
                _ => {},
            }
        }
    }
}

/// One raised to any power is one.
proof fn lemma_pow_nat_one(e: nat)
    ensures
        crate::field::pow_nat(1, e) == 1,
    decreases e,
{
    if e > 0 {
        lemma_pow_nat_one((e - 1) as nat);
    }
}

/// The values the algebraic rewrite rules rest on, for canonical operands.
proof fn lemma_rules(v: nat)
    requires
        v < p(),
    ensures
        (0 + v) % p() == v,
        (v + 0) % p() == v,
        (((v + p()) - 0) % (p() as int)) as nat == v,
        (((v + p()) - v) % (p() as int)) as nat == 0,
        (v * 0) % p() == 0,
        (0 * v) % p() == 0,
        (v * 1) % p() == v,
        (1 * v) % p() == v,
        (v * (crate::field::pow_nat(1, (p() - 2) as nat) % p())) % p() == v,
        crate::field::pow_nat(v, 0) % p() == 1,
        crate::field::pow_nat(v, 1) % p() == v,
{
    lemma_p_bounds();
    vstd::arithmetic::div_mod::lemma_small_mod(v, p());
    vstd::arithmetic::div_mod::lemma_small_mod(0, p());
    vstd::arithmetic::div_mod::lemma_small_mod(1, p());
    vstd::arithmetic::div_mod::lemma_mod_multiples_vanish(1, v as int, p() as int);
    vstd::arithmetic::div_mod::lemma_mod_self_0(p() as int);
    lemma_pow_nat_one((p() - 2) as nat);
    assert(crate::field::pow_nat(v, 1) == v * crate::field::pow_nat(v, 0));
}

/// After replacing node `k` by one of the same value (and with both the old
/// and the new node defined everywhere), all values and definedness carry
/// over; composed with the relation the prefix already had to the original
/// list.
proof fn replace_same_value(prev: Seq<Node>, k: int, nd: Node, orig: Seq<Node>, n: int)
    requires
        prev.len() == n,
        orig.len() == n,
        0 <= k < n,
        forall|inputs: Seq<nat>|
            #[trigger] node_val(prev.update(k, nd), inputs, k) == node_val(prev, inputs, k),
        forall|inputs: Seq<nat>| #[trigger] node_ok(prev, inputs, k),
        !(nd matches Node::Op(_, _, _)) && !(nd matches Node::Input(_)),
        forall|inputs: Seq<nat>, j: int|
            0 <= j < n ==> #[trigger] node_val(prev, inputs, j) == node_val(orig, inputs, j),
        forall|inputs: Seq<nat>, j: int|
            0 <= j < n ==> (#[trigger] node_ok(prev, inputs, j) <==> node_ok(orig, inputs, j)),
    ensures
        forall|inputs: Seq<nat>, j: int|
            0 <= j < n ==> #[trigger] node_val(prev.update(k, nd), inputs, j) == node_val(
                orig,
                inputs,
                j,
            ),
        forall|inputs: Seq<nat>, j: int|
            0 <= j < n ==> (#[trigger] node_ok(prev.update(k, nd), inputs, j) <==> node_ok(
                orig,
                inputs,
                j,
            )),
{
    let upd = prev.update(k, nd);
    assert forall|inputs: Seq<nat>, j: int| 0 <= j < n implies #[trigger] node_val(
        upd,
        inputs,
        j,
    ) == node_val(orig, inputs, j) by {
        lemma_val_update_at(prev, k, nd, inputs, j);
    }
    assert forall|inputs: Seq<nat>, j: int| 0 <= j < n implies (#[trigger] node_ok(upd, inputs, j)
        <==> node_ok(orig, inputs, j)) by {
        lemma_val_update_at(prev, k, nd, inputs, j);
        if j == k {
            assert(node_ok(upd, inputs, j));
            assert(node_ok(prev, inputs, j));
        }
    }
}


/// The key relation is symmetric.
proof fn lemma_same_key_sym(x: Node, y: Node)
    ensures
        same_key(x, y) == same_key(y, x),
{
}

/// Rewriting the operands of an operation through sound redirects keeps
/// every node's value and definedness (relative to the original list).
proof fn lemma_rewrite_operands(
    prev: Seq<Node>,
    orig: Seq<Node>,
    rens: Seq<usize>,
    op: Operation,
    i: int,
    a: usize,
    b: usize,
)
    requires
        prev.len() == orig.len(),
        0 <= i < prev.len(),
        prev[i] == Node::Op(op, a, b),
        a < i,
        b < i,
        i <= rens.len() <= prev.len(),
        forall|j: int| 0 <= j < rens.len() ==> #[trigger] rens[j] <= j,
        nodes_topo(prev),
        nodes_canon(prev),
        forall|inputs: Seq<nat>, j: int|
            inputs_canon(inputs) && 0 <= j < prev.len() ==> #[trigger] node_val(prev, inputs, j)
                == node_val(orig, inputs, j),
        forall|inputs: Seq<nat>, j: int|
            inputs_canon(inputs) && 0 <= j < prev.len() ==> (node_ok(orig, inputs, j)
                ==> #[trigger] node_ok(prev, inputs, j)),
        forall|inputs: Seq<nat>, j: int|
            inputs_canon(inputs) && 0 <= j < rens.len() ==> #[trigger] node_val(
                orig,
                inputs,
                rens[j] as int,
            ) == node_val(orig, inputs, j),
    ensures
        forall|inputs: Seq<nat>, j: int|
            inputs_canon(inputs) && 0 <= j < prev.len() ==> #[trigger] node_val(
                prev.update(i, Node::Op(op, rens[a as int], rens[b as int])),
                inputs,
                j,
            ) == node_val(orig, inputs, j),
        forall|inputs: Seq<nat>, j: int|
            inputs_canon(inputs) && 0 <= j < prev.len() ==> (node_ok(orig, inputs, j)
                ==> #[trigger] node_ok(
                prev.update(i, Node::Op(op, rens[a as int], rens[b as int])),
                inputs,
                j,
            )),
{
    let a2 = rens[a as int];
    let b2 = rens[b as int];
    let nd = Node::Op(op, a2, b2);
    let upd = prev.update(i, nd);
    assert forall|inputs: Seq<nat>| inputs_canon(inputs) implies #[trigger] node_val(
        upd,
        inputs,
        i,
    ) == node_val(prev, inputs, i) && node_val(upd, inputs, a2 as int) == node_val(
        prev,
        inputs,
        a as int,
    ) && node_val(upd, inputs, b2 as int) == node_val(prev, inputs, b as int) by {
        crate::graph::lemma_val_prefix(prev, upd, inputs, a2 as int);
        crate::graph::lemma_val_prefix(prev, upd, inputs, b2 as int);
        assert(node_val(orig, inputs, a2 as int) == node_val(orig, inputs, a as int));
        assert(node_val(orig, inputs, b2 as int) == node_val(orig, inputs, b as int));
        assert(node_val(prev, inputs, a2 as int) == node_val(orig, inputs, a2 as int));
        assert(node_val(prev, inputs, a as int) == node_val(orig, inputs, a as int));
        assert(node_val(prev, inputs, b2 as int) == node_val(orig, inputs, b2 as int));
        assert(node_val(prev, inputs, b as int) == node_val(orig, inputs, b as int));
    }
    assert forall|inputs: Seq<nat>, j: int|
        inputs_canon(inputs) && 0 <= j < prev.len() implies #[trigger] node_val(upd, inputs, j)
        == node_val(orig, inputs, j) by {
        lemma_val_update_at(prev, i, nd, inputs, j);
    }
    assert forall|inputs: Seq<nat>, j: int|
        inputs_canon(inputs) && 0 <= j < prev.len() && node_ok(orig, inputs, j) implies #[trigger] node_ok(
        upd,
        inputs,
        j,
    ) by {
        lemma_val_update_at(prev, i, nd, inputs, j);
        if j == i {
            assert(node_ok(prev, inputs, i));
            assert(node_val(upd, inputs, a2 as int) == node_val(prev, inputs, a as int));
            assert(node_val(upd, inputs, b2 as int) == node_val(prev, inputs, b as int));
        }
    }
}

/// Replacing node `i` by a constant of its own value keeps every node's
/// value, and definedness only improves.
proof fn lemma_replace_const(prev: Seq<Node>, orig: Seq<Node>, i: int, c: Felt)
    requires
        prev.len() == orig.len(),
        0 <= i < prev.len(),
        forall|inputs: Seq<nat>|
            inputs_canon(inputs) ==> #[trigger] node_val(prev, inputs, i) == c.as_nat(),
        forall|inputs: Seq<nat>, j: int|
            inputs_canon(inputs) && 0 <= j < prev.len() ==> #[trigger] node_val(prev, inputs, j)
                == node_val(orig, inputs, j),
        forall|inputs: Seq<nat>, j: int|
            inputs_canon(inputs) && 0 <= j < prev.len() ==> (node_ok(orig, inputs, j)
                ==> #[trigger] node_ok(prev, inputs, j)),
    ensures
        forall|inputs: Seq<nat>, j: int|
            inputs_canon(inputs) && 0 <= j < prev.len() ==> #[trigger] node_val(
                prev.update(i, Node::Constant(c)),
                inputs,
                j,
            ) == node_val(orig, inputs, j),
        forall|inputs: Seq<nat>, j: int|
            inputs_canon(inputs) && 0 <= j < prev.len() ==> (node_ok(orig, inputs, j)
                ==> #[trigger] node_ok(prev.update(i, Node::Constant(c)), inputs, j)),
{
    let nd = Node::Constant(c);
    let upd = prev.update(i, nd);
    assert forall|inputs: Seq<nat>, j: int|
        inputs_canon(inputs) && 0 <= j < prev.len() implies #[trigger] node_val(upd, inputs, j)
        == node_val(orig, inputs, j) by {
        assert(node_val(upd, inputs, i) == c.as_nat());
        lemma_val_update_at(prev, i, nd, inputs, j);
    }
    assert forall|inputs: Seq<nat>, j: int|
        inputs_canon(inputs) && 0 <= j < prev.len() && node_ok(orig, inputs, j) implies #[trigger] node_ok(
        upd,
        inputs,
        j,
    ) by {
        assert(node_val(upd, inputs, i) == c.as_nat());
        lemma_val_update_at(prev, i, nd, inputs, j);
        if j == i {
            assert(node_ok(upd, inputs, j));
        }
    }
}

/// A value identity between two nodes of the current list carries over to
/// the original list.
proof fn lemma_redirect_on_orig(cur: Seq<Node>, orig: Seq<Node>, i: int, t: int)
    requires
        cur.len() == orig.len(),
        0 <= i < cur.len(),
        0 <= t < cur.len(),
        forall|inputs: Seq<nat>|
            inputs_canon(inputs) ==> #[trigger] node_val(cur, inputs, i) == node_val(
                cur,
                inputs,
                t,
            ),
        forall|inputs: Seq<nat>, j: int|
            inputs_canon(inputs) && 0 <= j < cur.len() ==> #[trigger] node_val(cur, inputs, j)
                == node_val(orig, inputs, j),
    ensures
        forall|inputs: Seq<nat>|
            inputs_canon(inputs) ==> #[trigger] node_val(orig, inputs, i) == node_val(
                orig,
                inputs,
                t,
            ),
{
    assert forall|inputs: Seq<nat>| inputs_canon(inputs) implies #[trigger] node_val(
        orig,
        inputs,
        i,
    ) == node_val(orig, inputs, t) by {
        assert(node_val(cur, inputs, i) == node_val(orig, inputs, i));
        assert(node_val(cur, inputs, t) == node_val(orig, inputs, t));
    }
}

} // verus!


