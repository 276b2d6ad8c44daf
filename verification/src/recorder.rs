//! The recorder: a builder that appends one node per field operation the
//! circuit front end performs, keeping a concrete value and a constancy
//! flag per node so the front end can branch on constant expressions.

use vstd::prelude::*;
use vstd::string::StringExecFns;
use crate::field::{Felt, p, b64, lemma_p_bounds, lemma_high_limbs_large};
use crate::graph::{Node, nodes_topo, nodes_canon, no_mont, node_canon, node_topo};
use crate::ops::{Operation, Error, eval, eval_op, eval_ok};

verus! {

/// The character of one decimal digit.
pub open spec fn digit_char(d: nat) -> char {
    ((d + 48) as u8) as char
}

/// The decimal digits of a number, most significant first.
pub open spec fn dec_chars(n: nat) -> Seq<char>
    decreases n,
{
    if n < 10 {
        seq![digit_char(n)]
    } else {
        dec_chars(n / 10) + seq![digit_char(n % 10)]
    }
}

/// Relies on u32's `Display` implementation: the plain decimal digits,
/// without sign, padding or separators.
#[verifier::external_body]
fn u32_to_string(n: u32) -> (r: String)
    ensures
        r@ == dec_chars(n as nat),
{
    format!("{}", n)
}

/// The accumulator with one bracketed position index prepended per
/// remaining dimension, innermost dimension first.
pub open spec fn position_chars(
    acc: Seq<char>,
    dims: Seq<u32>,
    sd: nat,
    k: nat,
    index: nat,
) -> Seq<char>
    decreases sd - k,
{
    if k >= sd {
        acc
    } else {
        let d = dims[sd - 1 - k] as nat;
        position_chars(
            seq!['['] + dec_chars(index % d) + seq![']'] + acc,
            dims,
            sd,
            (k + 1) as nat,
            index / d,
        )
    }
}

/// Renders the position of a flat index inside a multi-dimensional signal:
/// the prefix with one bracketed index per dimension prepended, innermost
/// dimension first.
pub fn generate_position_array(
    prefix: String,
    dimensions: Vec<u32>,
    size_dimensions: u32,
    index: u32,
) -> (r: String)
    requires
        size_dimensions as int <= dimensions@.len(),
        forall|t: int| 0 <= t < size_dimensions as int ==> #[trigger] dimensions@[t] > 0,
    ensures
        r@ == position_chars(prefix@, dimensions@, size_dimensions as nat, 0, index as nat),
{
    let ghost p0 = prefix@;
    let mut positions = prefix;
    let mut idx = index;
    let sd = size_dimensions as usize;
    let ghost gsd = size_dimensions as nat;
    let mut i: usize = 0;
    while i < sd
        invariant
            sd == size_dimensions as nat,
            sd <= dimensions@.len(),
            i <= sd,
            forall|t: int| 0 <= t < sd ==> #[trigger] dimensions@[t] > 0,
            gsd == sd,
            position_chars(positions@, dimensions@, gsd, i as nat, idx as nat) == position_chars(
                p0,
                dimensions@,
                gsd,
                0,
                index as nat,
            ),
        decreases sd - i,
    {
        let ghost old_positions = positions@;
        let ghost old_idx = idx as nat;
        let d = dimensions[sd - 1 - i];
        let last_pos = idx % d;
        idx = idx / d;
        let digits = u32_to_string(last_pos);
        let mut piece = String::new();
        piece.append("[");
        piece.append(digits.as_str());
        piece.append("]");
        piece.append(positions.as_str());
        positions = piece;
        proof {
            reveal_strlit("[");
            reveal_strlit("]");
            assert("["@ =~= seq!['[']);
            assert("]"@ =~= seq![']']);
            assert(positions@ =~= seq!['['] + dec_chars(old_idx % (d as nat)) + seq![']']
                + old_positions);
            assert(position_chars(positions@, dimensions@, gsd, (i + 1) as nat, idx as nat)
                == position_chars(old_positions, dimensions@, gsd, i as nat, old_idx));
        }
        i += 1;
    }
    positions
}

/// An opaque handle to a recorded node: its index in the node list.
#[derive(Debug, Default, Clone, Copy, PartialEq, Eq, Structural)]
pub struct FrElement(pub usize);

/// The handle value that marks a slot no operation has filled yet.
pub fn undefined() -> (r: FrElement)
    ensures
        r.0 == usize::MAX,
{
    FrElement(usize::MAX)
}

/// A buffer of yet-unfilled handles, as the front end allocates them.
pub fn create_vec(len: usize) -> (r: Vec<FrElement>)
    ensures
        r@.len() == len,
        forall|i: int| 0 <= i < len ==> (#[trigger] r@[i]).0 == usize::MAX,
{
    let mut v: Vec<FrElement> = Vec::new();
    for i in 0..len
        invariant
            v@.len() == i,
            forall|j: int| 0 <= j < i ==> (#[trigger] v@[j]).0 == usize::MAX,
    {
        v.push(FrElement(usize::MAX));
    }
    v
}

/// A zeroed index buffer for the front end.
pub fn create_vec_u32(len: usize) -> (r: Vec<u32>)
    ensures
        r@.len() == len,
        forall|i: int| 0 <= i < len ==> (#[trigger] r@[i]) == 0u32,
{
    let mut v: Vec<u32> = Vec::new();
    for i in 0..len
        invariant
            v@.len() == i,
            forall|j: int| 0 <= j < i ==> (#[trigger] v@[j]) == 0u32,
    {
        v.push(0);
    }
    v
}

/// The recorder's three parallel vectors: the node, its current concrete
/// value, and whether all its ancestors are constants.
pub struct Recorder {
    pub nodes: Vec<Node>,
    pub values: Vec<Felt>,
    pub is_const: Vec<bool>,
}

impl Recorder {
    /// Well-formed recorder state: equal lengths, a topological canonical
    /// node list without Montgomery constants, and per node a value and a
    /// constancy flag that agree with the node.
    pub open spec fn wf(self) -> bool {
        &&& self.values@.len() == self.nodes@.len()
        &&& self.is_const@.len() == self.nodes@.len()
        &&& nodes_topo(self.nodes@)
        &&& nodes_canon(self.nodes@)
        &&& no_mont(self.nodes@)
        &&& forall|i: int|
            0 <= i < self.nodes@.len() ==> (#[trigger] self.values@[i]).as_nat() < p()
        &&& forall|i: int|
            0 <= i < self.nodes@.len() ==> match #[trigger] self.nodes@[i] {
                Node::Constant(c) => self.values@[i] == c && self.is_const@[i],
                Node::Input(_) => !self.is_const@[i],
                Node::Op(op, a, b) => a < i && b < i && eval_ok(
                    op,
                    self.values@[a as int].as_nat(),
                    self.values@[b as int].as_nat(),
                ) && self.values@[i].as_nat() == eval_op(
                    op,
                    self.values@[a as int].as_nat(),
                    self.values@[b as int].as_nat(),
                ) && self.is_const@[i] == (self.is_const@[a as int] && self.is_const@[b as int]),
                Node::MontConstant(_) => false,
            }
    }

    /// An empty recorder.
    pub fn new() -> (r: Recorder)
        ensures
            r.wf(),
            r.nodes@.len() == 0,
    {
        Recorder { nodes: Vec::new(), values: Vec::new(), is_const: Vec::new() }
    }

    /// Appends a constant node; the handle names it.
    pub fn constant(&mut self, v: Felt) -> (r: FrElement)
        requires
            old(self).wf(),
            v.is_canonical(),
            old(self).nodes@.len() < usize::MAX,
        ensures
            final(self).wf(),
            r.0 == old(self).nodes@.len(),
            final(self).nodes@ == old(self).nodes@.push(Node::Constant(v)),
            final(self).values@ == old(self).values@.push(v),
            final(self).is_const@ == old(self).is_const@.push(true),
    {
        let h = self.nodes.len();
        self.nodes.push(Node::Constant(v));
        self.values.push(v);
        self.is_const.push(true);
        FrElement(h)
    }

    /// Appends an input node for the given slot, with the concrete value
    /// the front end supplies (typically zero during recording).
    pub fn input(&mut self, signal_id: usize, v: Felt) -> (r: FrElement)
        requires
            old(self).wf(),
            v.is_canonical(),
            old(self).nodes@.len() < usize::MAX,
        ensures
            final(self).wf(),
            r.0 == old(self).nodes@.len(),
            final(self).nodes@ == old(self).nodes@.push(Node::Input(signal_id)),
            final(self).values@ == old(self).values@.push(v),
            final(self).is_const@ == old(self).is_const@.push(false),
    {
        let h = self.nodes.len();
        self.nodes.push(Node::Input(signal_id));
        self.values.push(v);
        self.is_const.push(false);
        FrElement(h)
    }

    /// Appends a binary operation on two recorded nodes, computing its
    /// concrete value; fails exactly when the operator divides by the
    /// right operand's value and that value is zero.
    pub fn binop(&mut self, op: Operation, a: FrElement, b: FrElement) -> (r: Result<
        FrElement,
        Error,
    >)
        requires
            old(self).wf(),
            a.0 < old(self).nodes@.len(),
            b.0 < old(self).nodes@.len(),
            old(self).nodes@.len() < usize::MAX,
        ensures
            final(self).wf(),
            match r {
                Ok(h) => {
                    &&& eval_ok(
                        op,
                        old(self).values@[a.0 as int].as_nat(),
                        old(self).values@[b.0 as int].as_nat(),
                    )
                    &&& h.0 == old(self).nodes@.len()
                    &&& final(self).nodes@ == old(self).nodes@.push(Node::Op(op, a.0, b.0))
                    &&& final(self).values@.len() == old(self).values@.len() + 1
                    &&& final(self).values@[h.0 as int].as_nat() == eval_op(
                        op,
                        old(self).values@[a.0 as int].as_nat(),
                        old(self).values@[b.0 as int].as_nat(),
                    )
                    &&& final(self).is_const@ == old(self).is_const@.push(
                        old(self).is_const@[a.0 as int] && old(self).is_const@[b.0 as int],
                    )
                },
                Err(e) => {
                    &&& !eval_ok(
                        op,
                        old(self).values@[a.0 as int].as_nat(),
                        old(self).values@[b.0 as int].as_nat(),
                    )
                    &&& (e matches Error::Arithmetic)
                    &&& *final(self) == *old(self)
                },
            },
    {
        let h = self.nodes.len();
        let va = self.values[a.0];
        let vb = self.values[b.0];
        match eval(op, &va, &vb) {
            Ok(v) => {
                self.nodes.push(Node::Op(op, a.0, b.0));
                self.values.push(v);
                let c = self.is_const[a.0] && self.is_const[b.0];
                self.is_const.push(c);
                Ok(FrElement(h))
            },
            Err(e) => Err(e),
        }
    }

    /// The negation of a node: zero minus it, as a recorded operation.
    pub fn neg(&mut self, a: FrElement) -> (r: FrElement)
        requires
            old(self).wf(),
            a.0 < old(self).nodes@.len(),
            old(self).nodes@.len() + 1 < usize::MAX,
        ensures
            final(self).wf(),
            final(self).nodes@.len() == old(self).nodes@.len() + 2,
            r.0 == old(self).nodes@.len() + 1,
            r.0 < final(self).nodes@.len(),
            final(self).nodes@ == old(self).nodes@.push(
                Node::Constant(Felt { l0: 0, l1: 0, l2: 0, l3: 0 }),
            ).push(Node::Op(Operation::Sub, old(self).nodes@.len() as usize, a.0)),
            final(self).values@[r.0 as int].as_nat() == eval_op(
                Operation::Sub,
                0,
                old(self).values@[a.0 as int].as_nat(),
            ),
    {
        let z = self.constant(Felt::zero());
        proof {
            lemma_p_bounds();
        }
        match self.binop(Operation::Sub, z, a) {
            Ok(h) => h,
            Err(_) => {
                proof {
                    assert(false);
                }
                FrElement(0)
            },
        }
    }

    /// The inverse of a node: one divided by it, as a recorded operation;
    /// fails when its concrete value is zero.
    pub fn inv(&mut self, a: FrElement) -> (r: Result<FrElement, Error>)
        requires
            old(self).wf(),
            a.0 < old(self).nodes@.len(),
            old(self).nodes@.len() + 1 < usize::MAX,
        ensures
            final(self).wf(),
            match r {
                Ok(h) => {
                    &&& h.0 == old(self).nodes@.len() + 1
                    &&& h.0 < final(self).nodes@.len()
                    &&& final(self).nodes@ == old(self).nodes@.push(
                        Node::Constant(Felt { l0: 1, l1: 0, l2: 0, l3: 0 }),
                    ).push(Node::Op(Operation::Div, old(self).nodes@.len() as usize, a.0))
                    &&& final(self).values@[h.0 as int].as_nat() == eval_op(
                        Operation::Div,
                        1,
                        old(self).values@[a.0 as int].as_nat(),
                    )
                    &&& old(self).values@[a.0 as int].as_nat() != 0
                },
                Err(e) => {
                    &&& (e matches Error::Arithmetic)
                    &&& old(self).values@[a.0 as int].as_nat() == 0
                    &&& final(self).nodes@ == old(self).nodes@.push(
                        Node::Constant(Felt { l0: 1, l1: 0, l2: 0, l3: 0 }),
                    )
                },
            },
    {
        let one = self.constant(Felt::one());
        proof {
            lemma_p_bounds();
        }
        self.binop(Operation::Div, one, a)
    }

    /// The square of a node, as a recorded multiplication.
    pub fn square(&mut self, a: FrElement) -> (r: FrElement)
        requires
            old(self).wf(),
            a.0 < old(self).nodes@.len(),
            old(self).nodes@.len() < usize::MAX,
        ensures
            final(self).wf(),
            final(self).nodes@.len() == old(self).nodes@.len() + 1,
            r.0 == old(self).nodes@.len(),
            r.0 < final(self).nodes@.len(),
            final(self).nodes@ == old(self).nodes@.push(Node::Op(Operation::Mul, a.0, a.0)),
            final(self).values@[r.0 as int].as_nat() == eval_op(
                Operation::Mul,
                old(self).values@[a.0 as int].as_nat(),
                old(self).values@[a.0 as int].as_nat(),
            ),
    {
        match self.binop(Operation::Mul, a, a) {
            Ok(h) => h,
            Err(_) => {
                proof {
                    assert(false);
                }
                FrElement(0)
            },
        }
    }

    /// Whether a constant node's value is nonzero; defined only on
    /// constants.
    pub fn is_true(&self, h: FrElement) -> (r: bool)
        requires
            self.wf(),
            h.0 < self.nodes@.len(),
            self.is_const@[h.0 as int],
        ensures
            r == (self.values@[h.0 as int].as_nat() != 0),
    {
        !self.values[h.0].is_zero()
    }

    /// A constant node's value as a machine integer; defined only on
    /// constants whose value fits.
    pub fn to_int(&self, h: FrElement) -> (r: u64)
        requires
            self.wf(),
            h.0 < self.nodes@.len(),
            self.is_const@[h.0 as int],
            self.values@[h.0 as int].as_nat() < b64(),
        ensures
            r as nat == self.values@[h.0 as int].as_nat(),
    {
        let v = self.values[h.0];
        proof {
            if v.l1 != 0 || v.l2 != 0 || v.l3 != 0 {
                lemma_high_limbs_large(v);
            }
        }
        v.l0
    }

    /// The recorded node list, for the optimizer.
    pub fn get_graph(&self) -> (r: Vec<Node>)
        ensures
            r@ == self.nodes@,
    {
        let mut out: Vec<Node> = Vec::new();
        let n = self.nodes.len();
        for i in 0..n
            invariant
                n == self.nodes@.len(),
                out@ =~= self.nodes@.subrange(0, i as int),
        {
            out.push(self.nodes[i]);
        }
        proof {
            assert(self.nodes@.subrange(0, n as int) =~= self.nodes@);
        }
        out
    }

    /// The recorded concrete values.
    pub fn get_values(&self) -> (r: Vec<Felt>)
        ensures
            r@ == self.values@,
    {
        let mut out: Vec<Felt> = Vec::new();
        let n = self.values.len();
        for i in 0..n
            invariant
                n == self.values@.len(),
                out@ =~= self.values@.subrange(0, i as int),
        {
            out.push(self.values[i]);
        }
        proof {
            assert(self.values@.subrange(0, n as int) =~= self.values@);
        }
        out
    }
}

} // verus!
