//! The expression graph: nodes, well-formedness, value semantics, and the
//! evaluator that replays a finalized graph on fresh inputs.

use vstd::prelude::*;
use crate::field::{Felt, p, from_mont, modulus, MONT_INV, lemma_mont_inv, lemma_p_bounds};
use crate::ops::{Operation, Error, eval, eval_op, eval_ok, lemma_eval_op_canonical};

verus! {

/// A node of the expression graph.
#[derive(Clone, Copy, Debug, PartialEq, Eq, Structural)]
pub enum Node {
    /// A reference to a slot of the caller's input buffer.
    Input(usize),
    /// A canonical field element.
    Constant(Felt),
    /// A constant whose limbs are in Montgomery form; only deserialization
    /// produces one, and the optimizer folds it away.
    MontConstant(Felt),
    /// A binary operation on two earlier nodes.
    Op(Operation, usize, usize),
}

/// Describes where a named input signal lives in the input buffer.
#[derive(Clone, Copy, Debug, PartialEq, Eq, Structural)]
pub struct InputSignalInfo {
    /// First slot of the signal's values.
    pub id: usize,
    /// Number of consecutive slots.
    pub size: usize,
}

/// A finalized computational graph: topologically ordered nodes, the node
/// indices that make up the witness, and the binding of input-name hashes
/// to slots of the input buffer.
#[derive(Clone, Debug, PartialEq, Eq)]
pub struct Graph {
    /// The nodes, each operation referring only to earlier nodes.
    pub nodes: Vec<Node>,
    /// For each witness position, the index of the node that produces it.
    pub outputs: Vec<usize>,
    /// Pairs of an FNV-1a hash of an input name and the slots it binds.
    pub input_map: Vec<(u64, InputSignalInfo)>,
}

/// An operation node refers only to strictly earlier nodes.
pub open spec fn node_topo(n: Node, i: int) -> bool {
    match n {
        Node::Op(_, a, b) => a < i && b < i,
        _ => true,
    }
}

/// Topological validity of the whole node list.
pub open spec fn nodes_topo(nodes: Seq<Node>) -> bool {
    forall|i: int| 0 <= i < nodes.len() ==> node_topo(#[trigger] nodes[i], i)
}

/// Every stored constant is below the prime.
pub open spec fn node_canon(n: Node) -> bool {
    match n {
        Node::Constant(v) => v.as_nat() < p(),
        Node::MontConstant(v) => v.as_nat() < p(),
        _ => true,
    }
}

/// Canonical values in the whole node list.
pub open spec fn nodes_canon(nodes: Seq<Node>) -> bool {
    forall|i: int| 0 <= i < nodes.len() ==> node_canon(#[trigger] nodes[i])
}

/// No Montgomery-form constant is left.
pub open spec fn no_mont(nodes: Seq<Node>) -> bool {
    forall|i: int| 0 <= i < nodes.len() ==> !(#[trigger] nodes[i] matches Node::MontConstant(_))
}

/// Every input reference fits a buffer of `n` slots.
pub open spec fn inputs_within(nodes: Seq<Node>, n: nat) -> bool {
    forall|i: int| 0 <= i < nodes.len() ==> (#[trigger] nodes[i] matches Node::Input(j) ==> j < n)
}

/// The mathematical values of a buffer of field elements.
pub open spec fn vals_of(s: Seq<Felt>) -> Seq<nat> {
    s.map_values(|f: Felt| f.as_nat())
}

/// The value a node takes when the graph is replayed on `inputs`: inputs
/// read their slot, constants are themselves (a Montgomery constant after
/// reduction), and operations apply `eval_op` to the values of their
/// operands.
pub open spec fn node_val(nodes: Seq<Node>, inputs: Seq<nat>, i: int) -> nat
    decreases i,
{
    if 0 <= i < nodes.len() {
        match nodes[i] {
            Node::Input(j) => if j < inputs.len() {
                inputs[j as int]
            } else {
                0
            },
            Node::Constant(v) => v.as_nat(),
            Node::MontConstant(v) => from_mont(v.as_nat()) % p(),
            Node::Op(op, a, b) => if a < i && b < i {
                eval_op(op, node_val(nodes, inputs, a as int), node_val(nodes, inputs, b as int))
            } else {
                0
            },
        }
    } else {
        0
    }
}

/// Whether the operation at node `i` is defined on its operands' values.
pub open spec fn node_ok(nodes: Seq<Node>, inputs: Seq<nat>, i: int) -> bool {
    match nodes[i] {
        Node::Op(op, a, b) => (a < i && b < i) ==> eval_ok(
            op,
            node_val(nodes, inputs, a as int),
            node_val(nodes, inputs, b as int),
        ),
        _ => true,
    }
}

/// Whether every node of the graph evaluates without an arithmetic fault.
pub open spec fn graph_ok(nodes: Seq<Node>, inputs: Seq<nat>) -> bool {
    forall|i: int| 0 <= i < nodes.len() ==> node_ok(nodes, inputs, i)
}

/// Every value a replay produces is canonical, provided the graph is
/// topological, its constants are canonical, and the inputs are canonical.
pub proof fn lemma_node_val_canonical(nodes: Seq<Node>, inputs: Seq<nat>, i: int)
    requires
        nodes_topo(nodes),
        nodes_canon(nodes),
        forall|j: int| 0 <= j < inputs.len() ==> #[trigger] inputs[j] < p(),
    ensures
        node_val(nodes, inputs, i) < p(),
    decreases i,
{
    lemma_p_bounds();
    if 0 <= i < nodes.len() {
        match nodes[i] {
            Node::Input(j) => {},
            Node::Constant(v) => {},
            Node::MontConstant(v) => {
                vstd::arithmetic::div_mod::lemma_mod_bound(
                    from_mont(v.as_nat()) as int,
                    p() as int,
                );
            },
            Node::Op(op, a, b) => {
                lemma_node_val_canonical(nodes, inputs, a as int);
                lemma_node_val_canonical(nodes, inputs, b as int);
                lemma_eval_op_canonical(
                    op,
                    node_val(nodes, inputs, a as int),
                    node_val(nodes, inputs, b as int),
                );
            },
        }
    }
}

/// Whether the node names `t` as an operand.
pub open spec fn uses(n: Node, t: usize) -> bool {
    match n {
        Node::Op(_, a, b) => a == t || b == t,
        _ => false,
    }
}

/// Whether node `i` contributes to some output: it is an output itself, or
/// a later reachable operation names it as an operand.
pub open spec fn reachable(nodes: Seq<Node>, outputs: Seq<usize>, i: int) -> bool
    decreases nodes.len() - i, nodes.len() + 1,
{
    if 0 <= i < nodes.len() {
        outputs.contains(i as usize) || reachable_via(nodes, outputs, i, i + 1)
    } else {
        false
    }
}

/// Whether some reachable node at index `lo` or later names `i` as an
/// operand.
pub open spec fn reachable_via(nodes: Seq<Node>, outputs: Seq<usize>, i: int, lo: int) -> bool
    decreases nodes.len() - i, nodes.len() - lo,
{
    if i < lo < nodes.len() {
        (uses(nodes[lo], i as usize) && reachable(nodes, outputs, lo)) || reachable_via(
            nodes,
            outputs,
            i,
            lo + 1,
        )
    } else {
        false
    }
}

/// A node used by a later reachable node is reachable.
pub proof fn lemma_reachable_step(nodes: Seq<Node>, outputs: Seq<usize>, i: int, w: int)
    requires
        0 <= i < nodes.len(),
        i < w < nodes.len(),
        reachable(nodes, outputs, w),
        uses(nodes[w], i as usize),
    ensures
        reachable(nodes, outputs, i),
{
    lemma_reachable_via_intro(nodes, outputs, i, i + 1, w);
}

/// Scanning from any index at or before the user finds it.
proof fn lemma_reachable_via_intro(nodes: Seq<Node>, outputs: Seq<usize>, i: int, lo: int, w: int)
    requires
        0 <= i < nodes.len(),
        i < lo <= w < nodes.len(),
        reachable(nodes, outputs, w),
        uses(nodes[w], i as usize),
    ensures
        reachable_via(nodes, outputs, i, lo),
    decreases w - lo,
{
    if lo < w {
        lemma_reachable_via_intro(nodes, outputs, i, lo + 1, w);
    }
}

/// A buffer of canonical input values.
pub open spec fn inputs_canon(inputs: Seq<nat>) -> bool {
    forall|j: int| 0 <= j < inputs.len() ==> #[trigger] inputs[j] < p()
}

/// A node's value and definedness depend only on the nodes up to it.
pub proof fn lemma_val_prefix(n1: Seq<Node>, n2: Seq<Node>, inputs: Seq<nat>, j: int)
    requires
        0 <= j < n1.len(),
        j < n2.len(),
        forall|t: int| 0 <= t <= j ==> n1[t] == n2[t],
    ensures
        node_val(n1, inputs, j) == node_val(n2, inputs, j),
        node_ok(n1, inputs, j) == node_ok(n2, inputs, j),
    decreases j,
{
    match n1[j] {
        Node::Op(op, a, b) => {
            if a < j && b < j {
                lemma_val_prefix(n1, n2, inputs, a as int);
                lemma_val_prefix(n1, n2, inputs, b as int);
            }
        },
        _ => {},
    }
}

/// Replacing one node by another of the same value leaves every node's
/// value unchanged, and every other node's definedness.
pub proof fn lemma_val_update_at(n1: Seq<Node>, k: int, nd: Node, inputs: Seq<nat>, j: int)
    requires
        0 <= k < n1.len(),
        0 <= j < n1.len(),
        node_val(n1.update(k, nd), inputs, k) == node_val(n1, inputs, k),
    ensures
        node_val(n1.update(k, nd), inputs, j) == node_val(n1, inputs, j),
        j != k ==> node_ok(n1.update(k, nd), inputs, j) == node_ok(n1, inputs, j),
    decreases j,
{
    let n2 = n1.update(k, nd);
    if j < k {
        lemma_val_prefix(n1, n2, inputs, j);
    } else if j > k {
        match n1[j] {
            Node::Op(op, a, b) => {
                if a < j && b < j {
                    lemma_val_update_at(n1, k, nd, inputs, a as int);
                    lemma_val_update_at(n1, k, nd, inputs, b as int);
                }
            },
            _ => {},
        }
    }
}

/// One node is the other with its Montgomery constant written in canonical
/// form.
pub open spec fn mont_swap(a: Node, b: Node) -> bool {
    match (a, b) {
        (Node::MontConstant(v), Node::Constant(c)) => c.as_nat() == from_mont(v.as_nat()) % p(),
        _ => false,
    }
}

/// Two node lists equal up to writing Montgomery constants in canonical
/// form (in either direction, node by node).
pub open spec fn mont_equiv(n1: Seq<Node>, n2: Seq<Node>) -> bool {
    &&& n1.len() == n2.len()
    &&& forall|i: int|
        #![trigger n1[i], n2[i]]
        0 <= i < n1.len() ==> (n1[i] == n2[i] || mont_swap(n1[i], n2[i]) || mont_swap(
            n2[i],
            n1[i],
        ))
}

/// A Montgomery constant and the canonical constant it reduces to are
/// interchangeable: two graphs equal up to such swaps give every node the
/// same value and the same definedness on every input buffer, so replaying
/// them yields the same witness.
pub proof fn lemma_mont_equiv_val(n1: Seq<Node>, n2: Seq<Node>, inputs: Seq<nat>, j: int)
    requires
        mont_equiv(n1, n2),
    ensures
        node_val(n1, inputs, j) == node_val(n2, inputs, j),
        0 <= j < n1.len() ==> node_ok(n1, inputs, j) == node_ok(n2, inputs, j),
    decreases j,
{
    if 0 <= j < n1.len() {
        match n1[j] {
            Node::Op(op, a, b) => {
                assert(n1[j] == n2[j]);
                if a < j && b < j {
                    lemma_mont_equiv_val(n1, n2, inputs, a as int);
                    lemma_mont_equiv_val(n1, n2, inputs, b as int);
                }
            },
            _ => {},
        }
    }
}

/// The list-level form: equal definedness of the whole graph, and equal
/// values everywhere.
pub proof fn lemma_mont_equiv_graph(n1: Seq<Node>, n2: Seq<Node>, inputs: Seq<nat>)
    requires
        mont_equiv(n1, n2),
    ensures
        graph_ok(n1, inputs) == graph_ok(n2, inputs),
        forall|j: int| #[trigger] node_val(n1, inputs, j) == node_val(n2, inputs, j),
{
    assert forall|j: int| #[trigger] node_val(n1, inputs, j) == node_val(n2, inputs, j) by {
        lemma_mont_equiv_val(n1, n2, inputs, j);
    }
    assert forall|j: int| 0 <= j < n1.len() implies (#[trigger] node_ok(n1, inputs, j) == node_ok(
        n2,
        inputs,
        j,
    )) by {
        lemma_mont_equiv_val(n1, n2, inputs, j);
    }
    if graph_ok(n1, inputs) {
        assert forall|j: int| 0 <= j < n2.len() implies node_ok(n2, inputs, j) by {
            lemma_mont_equiv_val(n1, n2, inputs, j);
            assert(node_ok(n1, inputs, j));
        }
        assert(graph_ok(n2, inputs));
    }
    if graph_ok(n2, inputs) {
        assert forall|j: int| 0 <= j < n1.len() implies node_ok(n1, inputs, j) by {
            lemma_mont_equiv_val(n1, n2, inputs, j);
            assert(node_ok(n2, inputs, j));
        }
        assert(graph_ok(n1, inputs));
    }
}

/// Replays the graph on an input buffer and returns the witness: one value
/// per output index. Fails exactly when some node divides by zero.
pub fn evaluate(nodes: &Vec<Node>, inputs: &Vec<Felt>, outputs: &Vec<usize>) -> (r: Result<
    Vec<Felt>,
    Error,
>)
    requires
        nodes_topo(nodes@),
        nodes_canon(nodes@),
        inputs_within(nodes@, inputs@.len() as nat),
        forall|k: int| 0 <= k < outputs@.len() ==> #[trigger] outputs@[k] < nodes@.len(),
        forall|j: int| 0 <= j < inputs@.len() ==> (#[trigger] inputs@[j]).is_canonical(),
    ensures
        match r {
            Ok(w) => graph_ok(nodes@, vals_of(inputs@)) && w@.len() == outputs@.len() && forall|
                k: int,
            |
                0 <= k < outputs@.len() ==> (#[trigger] w@[k]).as_nat() == node_val(
                    nodes@,
                    vals_of(inputs@),
                    outputs@[k] as int,
                ) && w@[k].is_canonical(),
            Err(e) => !graph_ok(nodes@, vals_of(inputs@)) && (e matches Error::Arithmetic),
        },
{
    let ghost iv = vals_of(inputs@);
    let m = modulus();
    proof {
        lemma_mont_inv();
        lemma_p_bounds();
    }
    let mut vals: Vec<Felt> = Vec::new();
    let n = nodes.len();
    for i in 0..n
        invariant
            n == nodes@.len(),
            iv == vals_of(inputs@),
            iv.len() == inputs@.len(),
            m.as_nat() == p(),
            nodes_topo(nodes@),
            nodes_canon(nodes@),
            inputs_within(nodes@, inputs@.len() as nat),
            forall|j: int| 0 <= j < inputs@.len() ==> (#[trigger] inputs@[j]).is_canonical(),
            vals@.len() == i,
            forall|j: int|
                0 <= j < i ==> (#[trigger] vals@[j]).as_nat() == node_val(nodes@, iv, j)
                    && vals@[j].is_canonical(),
            forall|j: int| 0 <= j < i ==> node_ok(nodes@, iv, j),
    {
        let node = nodes[i];
        let v = match node {
            Node::Input(j) => {
                proof {
                    assert(iv[j as int] == inputs@[j as int].as_nat());
                }
                inputs[j]
            },
            Node::Constant(c) => c,
            Node::MontConstant(c) => mont_reduce_node(&c, &m),
            Node::Op(op, a, b) => {
                let va = vals[a];
                let vb = vals[b];
                match eval(op, &va, &vb) {
                    Ok(v) => v,
                    Err(e) => {
                        proof {
                            assert(!node_ok(nodes@, iv, i as int));
                        }
                        return Err(e);
                    },
                }
            },
        };
        vals.push(v);
    }
    let mut witness: Vec<Felt> = Vec::new();
    let k = outputs.len();
    for t in 0..k
        invariant
            k == outputs@.len(),
            iv == vals_of(inputs@),
            vals@.len() == nodes@.len(),
            forall|k2: int| 0 <= k2 < outputs@.len() ==> #[trigger] outputs@[k2] < nodes@.len(),
            forall|j: int|
                0 <= j < vals@.len() ==> (#[trigger] vals@[j]).as_nat() == node_val(nodes@, iv, j)
                    && vals@[j].is_canonical(),
            witness@.len() == t,
            forall|k2: int|
                0 <= k2 < t ==> (#[trigger] witness@[k2]).as_nat() == node_val(
                    nodes@,
                    iv,
                    outputs@[k2] as int,
                ) && witness@[k2].is_canonical(),
    {
        witness.push(vals[outputs[t]]);
    }
    Ok(witness)
}

/// Reduces a Montgomery-form constant while replaying a graph.
pub(crate) fn mont_reduce_node(c: &Felt, m: &Felt) -> (r: Felt)
    requires
        c.as_nat() < p(),
        m.as_nat() == p(),
    ensures
        r.as_nat() == from_mont(c.as_nat()) % p(),
        r.is_canonical(),
{
    proof {
        lemma_mont_inv();
        lemma_p_bounds();
    }
    let r = crate::field::mont_reduce(c, m, MONT_INV);
    proof {
        vstd::arithmetic::div_mod::lemma_small_mod(from_mont(c.as_nat()), p());
    }
    r
}

/// The ancestor chain of node `r`: both operands' chains, then the node
/// itself; a leaf is its own chain.
pub open spec fn trace_spec(nodes: Seq<Node>, r: int) -> Seq<(usize, Node)>
    decreases r,
{
    if 0 <= r < nodes.len() {
        match nodes[r] {
            Node::Op(op, a, b) => if a < r && b < r {
                trace_spec(nodes, a as int) + trace_spec(nodes, b as int) + seq![
                    (r as usize, nodes[r]),
                ]
            } else {
                seq![(r as usize, nodes[r])]
            },
            _ => seq![(r as usize, nodes[r])],
        }
    } else {
        seq![]
    }
}

/// Collects the ancestor chain of node `r`: every node it depends on, in
/// post-order, ending with `r` itself.
pub fn trace(r: usize, nodes: &[Node]) -> (res: Vec<(usize, Node)>)
    requires
        nodes_topo(nodes@),
        r < nodes@.len(),
    ensures
        res@ == trace_spec(nodes@, r as int),
    decreases r,
{
    let node = nodes[r];
    match node {
        Node::Op(op, a, b) => {
            let mut res = trace(a, nodes);
            let mut right = trace(b, nodes);
            res.append(&mut right);
            res.push((r, node));
            res
        },
        _ => {
            let mut res: Vec<(usize, Node)> = Vec::new();
            res.push((r, node));
            res
        },
    }
}

/// What the input-size scan returns: the largest input slot seen in the
/// leading run of input nodes, plus one. The scan stops at the first node
/// that follows an input node without being one.
pub open spec fn inputs_size_spec(nodes: Seq<Node>, i: int, started: bool, top: nat) -> nat
    decreases nodes.len() - i,
{
    if i < 0 || i >= nodes.len() {
        top + 1
    } else {
        match nodes[i] {
            Node::Input(j) => inputs_size_spec(
                nodes,
                i + 1,
                true,
                if j > top {
                    j as nat
                } else {
                    top
                },
            ),
            _ => if started {
                top + 1
            } else {
                inputs_size_spec(nodes, i + 1, false, top)
            },
        }
    }
}

/// All input nodes stand together: between two of them sits nothing else.
/// Recording produces this shape (inputs are registered in one block), and
/// the optimizer preserves it.
pub open spec fn inputs_leading(nodes: Seq<Node>) -> bool {
    forall|i: int, j: int, k: int|
        #![trigger nodes[i], nodes[j], nodes[k]]
        0 <= i < j < k < nodes.len() && (nodes[i] matches Node::Input(_)) && (
        nodes[k] matches Node::Input(_)) ==> (nodes[j] matches Node::Input(_))
}

/// The scan's result always exceeds its accumulator.
proof fn lemma_scan_min(nodes: Seq<Node>, i: int, started: bool, top: nat)
    ensures
        inputs_size_spec(nodes, i, started, top) >= top + 1,
    decreases nodes.len() - i,
{
    if 0 <= i < nodes.len() {
        match nodes[i] {
            Node::Input(j) => {
                lemma_scan_min(
                    nodes,
                    i + 1,
                    true,
                    if j > top {
                        j as nat
                    } else {
                        top
                    },
                );
            },
            _ => {
                if !started {
                    lemma_scan_min(nodes, i + 1, false, top);
                }
            },
        }
    }
}

/// When the input nodes stand together, the scan's result exceeds every
/// input slot at or past the scan position.
proof fn lemma_scan_covers(nodes: Seq<Node>, i: int, started: bool, top: nat, t: int)
    requires
        inputs_leading(nodes),
        0 <= i <= t < nodes.len(),
        nodes[t] matches Node::Input(_),
        started ==> exists|i0: int|
            0 <= i0 < i && (#[trigger] nodes[i0] matches Node::Input(_)),
    ensures
        nodes[t] matches Node::Input(s) ==> (s as nat) < inputs_size_spec(
            nodes,
            i,
            started,
            top,
        ),
    decreases t - i,
{
    if i == t {
        match nodes[i] {
            Node::Input(j) => {
                lemma_scan_min(
                    nodes,
                    i + 1,
                    true,
                    if j > top {
                        j as nat
                    } else {
                        top
                    },
                );
            },
            _ => {},
        }
    } else {
        match nodes[i] {
            Node::Input(j) => {
                assert(nodes[i] matches Node::Input(_));
                lemma_scan_covers(
                    nodes,
                    i + 1,
                    true,
                    if j > top {
                        j as nat
                    } else {
                        top
                    },
                    t,
                );
            },
            _ => {
                if started {
                    let i0 = choose|i0: int|
                        0 <= i0 < i && (#[trigger] nodes[i0] matches Node::Input(_));
                    assert(nodes[i0] matches Node::Input(_) && nodes[t] matches Node::Input(_)
                        && !(nodes[i] matches Node::Input(_)));
                    assert(false);
                } else {
                    lemma_scan_covers(nodes, i + 1, false, top, t);
                }
            },
        }
    }
}

/// When the input nodes stand together, every input slot lies below the
/// size the scan reports.
pub proof fn lemma_leading_bounded(nodes: Seq<Node>)
    requires
        inputs_leading(nodes),
    ensures
        inputs_bounded(nodes),
{
    assert forall|t: int|
        0 <= t < nodes.len() implies (#[trigger] nodes[t] matches Node::Input(s) ==> (s as nat)
        < inputs_size_spec(nodes, 0, false, 0)) by {
        if nodes[t] matches Node::Input(_) {
            lemma_scan_covers(nodes, 0, false, 0, t);
        }
    }
}

/// The scan's result is its accumulator plus one, unless some later input
/// slot raises it to that slot plus one.
proof fn lemma_scan_top(nodes: Seq<Node>, i: int, started: bool, top: nat)
    ensures
        inputs_size_spec(nodes, i, started, top) >= top + 1,
        inputs_size_spec(nodes, i, started, top) == top + 1 || exists|t: int|
            i <= t < nodes.len() && #[trigger] nodes[t] == Node::Input(
                (inputs_size_spec(nodes, i, started, top) - 1) as usize,
            ),
    decreases nodes.len() - i,
{
    lemma_scan_min(nodes, i, started, top);
    if 0 <= i < nodes.len() {
        match nodes[i] {
            Node::Input(j) => {
                let m: nat = if j > top {
                    j as nat
                } else {
                    top
                };
                lemma_scan_top(nodes, i + 1, true, m);
                let r = inputs_size_spec(nodes, i, started, top);
                if r == m + 1 && m == j as nat {
                    assert(nodes[i] == Node::Input((r - 1) as usize));
                }
            },
            _ => {
                if !started {
                    lemma_scan_top(nodes, i + 1, false, top);
                }
            },
        }
    }
}

/// The input size a graph reports is one, or one more than the slot of one
/// of its input nodes; with `inputs_bounded` it is therefore exactly one
/// more than the largest input slot, or one when no input node exists.
pub proof fn lemma_inputs_size(nodes: Seq<Node>)
    ensures
        inputs_size_spec(nodes, 0, false, 0) >= 1,
        inputs_size_spec(nodes, 0, false, 0) == 1 || exists|t: int|
            0 <= t < nodes.len() && #[trigger] nodes[t] == Node::Input(
                (inputs_size_spec(nodes, 0, false, 0) - 1) as usize,
            ),
{
    lemma_scan_top(nodes, 0, false, 0);
}

/// Every input reference lies below the input size the scan reports.
pub open spec fn inputs_bounded(nodes: Seq<Node>) -> bool {
    forall|i: int|
        0 <= i < nodes.len() ==> (#[trigger] nodes[i] matches Node::Input(j) ==> (j as nat)
            < inputs_size_spec(nodes, 0, false, 0))
}

/// A well-formed finalized graph: topologically ordered operations,
/// canonical constants, outputs naming real nodes, and input references
/// that fit the input buffer whose size the graph reports.
pub open spec fn graph_wf(g: &Graph) -> bool {
    &&& nodes_topo(g.nodes@)
    &&& nodes_canon(g.nodes@)
    &&& inputs_within(g.nodes@, usize::MAX as nat)
    &&& inputs_bounded(g.nodes@)
    &&& forall|k: int| 0 <= k < g.outputs@.len() ==> #[trigger] g.outputs@[k] < g.nodes@.len()
    &&& forall|k1: int, k2: int|
        #![trigger g.input_map@[k1], g.input_map@[k2]]
        0 <= k1 < k2 < g.input_map@.len() ==> g.input_map@[k1].0 != g.input_map@[k2].0
}

/// Number of input slots the graph needs: one more than the largest slot
/// its input nodes name.
pub fn get_inputs_size(graph: &Graph) -> (r: usize)
    requires
        inputs_within(graph.nodes@, usize::MAX as nat),
    ensures
        r == inputs_size_spec(graph.nodes@, 0, false, 0),
{
    let mut start = false;
    let mut max_index: usize = 0;
    let n = graph.nodes.len();
    let mut i: usize = 0;
    while i < n
        invariant
            n == graph.nodes@.len(),
            i <= n,
            inputs_within(graph.nodes@, usize::MAX as nat),
            max_index < usize::MAX,
            inputs_size_spec(graph.nodes@, 0, false, 0) == inputs_size_spec(
                graph.nodes@,
                i as int,
                start,
                max_index as nat,
            ),
        decreases n - i,
    {
        match graph.nodes[i] {
            Node::Input(j) => {
                if j > max_index {
                    max_index = j;
                }
                start = true;
            },
            _ => {
                if start {
                    return max_index + 1;
                }
            },
        }
        i += 1;
    }
    max_index + 1
}

} // verus!
