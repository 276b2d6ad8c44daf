//! The binary graph format: a length-prefixed little-endian encoding of
//! `(nodes, outputs, input_map)`. The serializer produces exactly the spec
//! encoding of its graph; the deserializer validates structure (framing,
//! operand order, canonical constants, output and input ranges) and returns
//! only graphs that encode back to its input, byte for byte.

use vstd::prelude::*;
use vstd::arithmetic::div_mod::lemma_fundamental_div_mod_converse;
use vstd::arithmetic::div_mod::lemma_div_denominator;
use vstd::seq_lib::lemma_concat_associative;
use crate::field::{Felt, p, modulus, felt_lt};
use crate::graph::{Graph, InputSignalInfo, Node, graph_wf, get_inputs_size, inputs_size_spec};
use crate::ops::{Operation, Error};

verus! {

/// A 64-bit value as eight little-endian bytes.
#[verifier::opaque]
pub open spec fn le8(v: nat) -> Seq<u8> {
    seq![
        (v % 256) as u8,
        ((v / 0x100) % 256) as u8,
        ((v / 0x10000) % 256) as u8,
        ((v / 0x1000000) % 256) as u8,
        ((v / 0x100000000) % 256) as u8,
        ((v / 0x10000000000) % 256) as u8,
        ((v / 0x1000000000000) % 256) as u8,
        ((v / 0x100000000000000) % 256) as u8,
    ]
}

/// The value of eight little-endian bytes.
pub open spec fn dec_u64(bytes: Seq<u8>, pos: int) -> nat {
    (bytes[pos] as nat) + 0x100 * (bytes[pos + 1] as nat) + 0x10000 * (bytes[pos + 2] as nat)
        + 0x1000000 * (bytes[pos + 3] as nat) + 0x100000000 * (bytes[pos + 4] as nat)
        + 0x10000000000 * (bytes[pos + 5] as nat) + 0x1000000000000 * (bytes[pos + 6] as nat)
        + 0x100000000000000 * (bytes[pos + 7] as nat)
}

/// Encoding and decoding eight bytes are inverse to each other.
proof fn lemma_le8_dec(bytes: Seq<u8>, pos: int)
    requires
        0 <= pos,
        pos + 8 <= bytes.len(),
    ensures
        le8(dec_u64(bytes, pos)) =~= bytes.subrange(pos, pos + 8),
        dec_u64(bytes, pos) < 0x1_0000_0000_0000_0000,
{
    reveal(le8);
    let b0 = bytes[pos] as nat;
    let b1 = bytes[pos + 1] as nat;
    let b2 = bytes[pos + 2] as nat;
    let b3 = bytes[pos + 3] as nat;
    let b4 = bytes[pos + 4] as nat;
    let b5 = bytes[pos + 5] as nat;
    let b6 = bytes[pos + 6] as nat;
    let b7 = bytes[pos + 7] as nat;
    let x7 = b7;
    let x6 = b6 + 0x100 * x7;
    let x5 = b5 + 0x100 * x6;
    let x4 = b4 + 0x100 * x5;
    let x3 = b3 + 0x100 * x4;
    let x2 = b2 + 0x100 * x3;
    let x1 = b1 + 0x100 * x2;
    let v = b0 + 0x100 * x1;
    assert(v == dec_u64(bytes, pos));
    lemma_fundamental_div_mod_converse(v as int, 0x100, x1 as int, b0 as int);
    lemma_fundamental_div_mod_converse(x1 as int, 0x100, x2 as int, b1 as int);
    lemma_fundamental_div_mod_converse(x2 as int, 0x100, x3 as int, b2 as int);
    lemma_fundamental_div_mod_converse(x3 as int, 0x100, x4 as int, b3 as int);
    lemma_fundamental_div_mod_converse(x4 as int, 0x100, x5 as int, b4 as int);
    lemma_fundamental_div_mod_converse(x5 as int, 0x100, x6 as int, b5 as int);
    lemma_fundamental_div_mod_converse(x6 as int, 0x100, x7 as int, b6 as int);
    lemma_fundamental_div_mod_converse(x7 as int, 0x100, 0, b7 as int);
    lemma_div_denominator(v as int, 0x100, 0x100);
    lemma_div_denominator(v as int, 0x10000, 0x100);
    lemma_div_denominator(v as int, 0x1000000, 0x100);
    lemma_div_denominator(v as int, 0x100000000, 0x100);
    lemma_div_denominator(v as int, 0x10000000000, 0x100);
    lemma_div_denominator(v as int, 0x1000000000000, 0x100);
    assert(v / 0x100 == x1 as int);
    assert(v / 0x10000 == x2 as int);
    assert(v / 0x1000000 == x3 as int);
    assert(v / 0x100000000 == x4 as int);
    assert(v / 0x10000000000 == x5 as int);
    assert(v / 0x1000000000000 == x6 as int);
    assert(v / 0x100000000000000 == x7 as int);
}

/// Appends the eight little-endian bytes of `v`.
fn write_u64(out: &mut Vec<u8>, v: u64)
    ensures
        final(out)@ == old(out)@ + le8(v as nat),
{
    proof {
        reveal(le8);
    }
    out.push((v % 256) as u8);
    out.push(((v / 0x100) % 256) as u8);
    out.push(((v / 0x10000) % 256) as u8);
    out.push(((v / 0x1000000) % 256) as u8);
    out.push(((v / 0x100000000) % 256) as u8);
    out.push(((v / 0x10000000000) % 256) as u8);
    out.push(((v / 0x1000000000000) % 256) as u8);
    out.push(((v / 0x100000000000000) % 256) as u8);
}

/// Reads eight little-endian bytes at `pos`.
pub(crate) fn read_u64(bytes: &Vec<u8>, pos: usize) -> (r: u64)
    requires
        pos + 8 <= bytes@.len(),
    ensures
        r as nat == dec_u64(bytes@, pos as int),
        le8(r as nat) =~= bytes@.subrange(pos as int, pos as int + 8),
{
    proof {
        lemma_le8_dec(bytes@, pos as int);
    }
    let bl = bytes.len();
    let mut v: u64 = bytes[pos + 7] as u64;
    v = v * 0x100 + bytes[pos + 6] as u64;
    v = v * 0x100 + bytes[pos + 5] as u64;
    v = v * 0x100 + bytes[pos + 4] as u64;
    v = v * 0x100 + bytes[pos + 3] as u64;
    v = v * 0x100 + bytes[pos + 2] as u64;
    v = v * 0x100 + bytes[pos + 1] as u64;
    v = v * 0x100 + bytes[pos] as u64;
    v
}

/// Eight bytes always.
proof fn lemma_le8_len(v: nat)
    ensures
        le8(v).len() == 8,
{
    reveal(le8);
}

/// A value below 2^64 is the sum of its eight little-endian digits.
proof fn lemma_u64_digits(v: nat)
    requires
        v < 0x1_0000_0000_0000_0000,
    ensures
        v == (v % 0x100) + 0x100 * ((v / 0x100) % 0x100) + 0x10000 * ((v / 0x10000) % 0x100)
            + 0x1000000 * ((v / 0x1000000) % 0x100) + 0x100000000 * ((v / 0x100000000) % 0x100)
            + 0x10000000000 * ((v / 0x10000000000) % 0x100) + 0x1000000000000 * ((v
            / 0x1000000000000) % 0x100) + 0x100000000000000 * ((v / 0x100000000000000) % 0x100),
{
    vstd::arithmetic::div_mod::lemma_fundamental_div_mod(v as int, 0x100);
    lemma_div_denominator(v as int, 0x100, 0x100);
    vstd::arithmetic::div_mod::lemma_fundamental_div_mod((v / 0x100) as int, 0x100);
    lemma_div_denominator(v as int, 0x10000, 0x100);
    vstd::arithmetic::div_mod::lemma_fundamental_div_mod((v / 0x10000) as int, 0x100);
    lemma_div_denominator(v as int, 0x1000000, 0x100);
    vstd::arithmetic::div_mod::lemma_fundamental_div_mod((v / 0x1000000) as int, 0x100);
    lemma_div_denominator(v as int, 0x100000000, 0x100);
    vstd::arithmetic::div_mod::lemma_fundamental_div_mod((v / 0x100000000) as int, 0x100);
    lemma_div_denominator(v as int, 0x10000000000, 0x100);
    vstd::arithmetic::div_mod::lemma_fundamental_div_mod((v / 0x10000000000) as int, 0x100);
    lemma_div_denominator(v as int, 0x1000000000000, 0x100);
    vstd::arithmetic::div_mod::lemma_fundamental_div_mod((v / 0x1000000000000) as int, 0x100);
    assert(v / 0x100000000000000 < 0x100) by {
        vstd::arithmetic::div_mod::lemma_div_is_ordered(
            v as int,
            0xFFFF_FFFF_FFFF_FFFF,
            0x100000000000000,
        );
    }
    vstd::arithmetic::div_mod::lemma_small_mod((v / 0x100000000000000) as nat, 0x100);
}

/// Equal eight-byte encodings mean equal values.
proof fn lemma_le8_injective(a: nat, b: nat)
    requires
        a < 0x1_0000_0000_0000_0000,
        b < 0x1_0000_0000_0000_0000,
        le8(a) == le8(b),
    ensures
        a == b,
{
    reveal(le8);
    lemma_u64_digits(a);
    lemma_u64_digits(b);
    assert(le8(a)[0] == le8(b)[0]);
    assert(le8(a)[1] == le8(b)[1]);
    assert(le8(a)[2] == le8(b)[2]);
    assert(le8(a)[3] == le8(b)[3]);
    assert(le8(a)[4] == le8(b)[4]);
    assert(le8(a)[5] == le8(b)[5]);
    assert(le8(a)[6] == le8(b)[6]);
    assert(le8(a)[7] == le8(b)[7]);
}

/// The pieces of a concatenation stand at their offsets.
proof fn lemma_extract_prefix(s: Seq<u8>, c: Seq<u8>, b: Seq<u8>)
    requires
        s == c + b,
    ensures
        s.subrange(0, c.len() as int) =~= c,
        s.subrange(c.len() as int, s.len() as int) =~= b,
{
}

/// The middle piece of a three-way concatenation stands at its offset.
proof fn lemma_extract_mid(s: Seq<u8>, a: Seq<u8>, c: Seq<u8>, b: Seq<u8>)
    requires
        s == a + c + b,
    ensures
        s.subrange(a.len() as int, (a.len() + c.len()) as int) =~= c,
{
}

/// A field element as 32 little-endian bytes.
pub open spec fn enc_felt(f: Felt) -> Seq<u8> {
    le8(f.l0 as nat) + le8(f.l1 as nat) + le8(f.l2 as nat) + le8(f.l3 as nat)
}

/// The discriminant byte of each operator.
pub open spec fn op_code(op: Operation) -> u8 {
    match op {
        Operation::Mul => 0,
        Operation::Add => 1,
        Operation::Sub => 2,
        Operation::Div => 3,
        Operation::Idiv => 4,
        Operation::Mod => 5,
        Operation::Pow => 6,
        Operation::Eq => 7,
        Operation::Neq => 8,
        Operation::Lt => 9,
        Operation::Gt => 10,
        Operation::Leq => 11,
        Operation::Geq => 12,
        Operation::Land => 13,
        Operation::Lor => 14,
        Operation::Shl => 15,
        Operation::Shr => 16,
        Operation::Band => 17,
        Operation::Bor => 18,
        Operation::Bxor => 19,
    }
}

fn op_code_exec(op: Operation) -> (r: u8)
    ensures
        r == op_code(op),
{
    match op {
        Operation::Mul => 0,
        Operation::Add => 1,
        Operation::Sub => 2,
        Operation::Div => 3,
        Operation::Idiv => 4,
        Operation::Mod => 5,
        Operation::Pow => 6,
        Operation::Eq => 7,
        Operation::Neq => 8,
        Operation::Lt => 9,
        Operation::Gt => 10,
        Operation::Leq => 11,
        Operation::Geq => 12,
        Operation::Land => 13,
        Operation::Lor => 14,
        Operation::Shl => 15,
        Operation::Shr => 16,
        Operation::Band => 17,
        Operation::Bor => 18,
        Operation::Bxor => 19,
    }
}

/// The operator a discriminant byte stands for.
fn op_from_code(c: u8) -> (r: Option<Operation>)
    ensures
        match r {
            Some(op) => op_code(op) == c,
            None => c >= 20,
        },
{
    match c {
        0 => Some(Operation::Mul),
        1 => Some(Operation::Add),
        2 => Some(Operation::Sub),
        3 => Some(Operation::Div),
        4 => Some(Operation::Idiv),
        5 => Some(Operation::Mod),
        6 => Some(Operation::Pow),
        7 => Some(Operation::Eq),
        8 => Some(Operation::Neq),
        9 => Some(Operation::Lt),
        10 => Some(Operation::Gt),
        11 => Some(Operation::Leq),
        12 => Some(Operation::Geq),
        13 => Some(Operation::Land),
        14 => Some(Operation::Lor),
        15 => Some(Operation::Shl),
        16 => Some(Operation::Shr),
        17 => Some(Operation::Band),
        18 => Some(Operation::Bor),
        19 => Some(Operation::Bxor),
        _ => None,
    }
}

/// One node: a tag byte and its payload.
pub open spec fn enc_node(n: Node) -> Seq<u8> {
    match n {
        Node::Input(j) => seq![0u8] + le8(j as nat),
        Node::Constant(c) => seq![1u8] + enc_felt(c),
        Node::MontConstant(c) => seq![2u8] + enc_felt(c),
        Node::Op(op, a, b) => seq![3u8, op_code(op)] + le8(a as nat) + le8(b as nat),
    }
}

/// The leading byte of a node's encoding.
pub open spec fn node_tag(nd: Node) -> u8 {
    match nd {
        Node::Input(_) => 0,
        Node::Constant(_) => 1,
        Node::MontConstant(_) => 2,
        Node::Op(_, _, _) => 3,
    }
}

/// The byte length of a node's encoding.
pub open spec fn enc_node_len(nd: Node) -> int {
    match nd {
        Node::Input(_) => 9,
        Node::Constant(_) => 33,
        Node::MontConstant(_) => 33,
        Node::Op(_, _, _) => 18,
    }
}

/// A node's encoding starts with its tag and has its fixed length.
proof fn lemma_enc_node_shape(nd: Node)
    ensures
        enc_node(nd).len() == enc_node_len(nd),
        enc_node(nd)[0] == node_tag(nd),
{
    match nd {
        Node::Input(j) => {
            lemma_le8_len(j as nat);
        },
        Node::Constant(c) => {
            lemma_le8_len(c.l0 as nat);
            lemma_le8_len(c.l1 as nat);
            lemma_le8_len(c.l2 as nat);
            lemma_le8_len(c.l3 as nat);
        },
        Node::MontConstant(c) => {
            lemma_le8_len(c.l0 as nat);
            lemma_le8_len(c.l1 as nat);
            lemma_le8_len(c.l2 as nat);
            lemma_le8_len(c.l3 as nat);
        },
        Node::Op(op, a, b) => {
            lemma_le8_len(a as nat);
            lemma_le8_len(b as nat);
        },
    }
}

/// No two operators share a discriminant byte.
proof fn lemma_op_code_injective(x: Operation, y: Operation)
    requires
        op_code(x) == op_code(y),
    ensures
        x == y,
{
}

/// Equal felt encodings mean equal elements.
proof fn lemma_enc_felt_injective(c1: Felt, c2: Felt)
    requires
        enc_felt(c1) == enc_felt(c2),
    ensures
        c1 == c2,
{
    lemma_le8_len(c1.l0 as nat);
    lemma_le8_len(c1.l1 as nat);
    lemma_le8_len(c1.l2 as nat);
    lemma_le8_len(c1.l3 as nat);
    lemma_le8_len(c2.l0 as nat);
    lemma_le8_len(c2.l1 as nat);
    lemma_le8_len(c2.l2 as nat);
    lemma_le8_len(c2.l3 as nat);
    assert(le8(c1.l0 as nat) =~= le8(c2.l0 as nat)) by {
        assert forall|k: int| 0 <= k < 8 implies le8(c1.l0 as nat)[k] == le8(
            c2.l0 as nat,
        )[k] by {
            assert(enc_felt(c1)[k] == le8(c1.l0 as nat)[k]);
            assert(enc_felt(c2)[k] == le8(c2.l0 as nat)[k]);
        }
    }
    assert(le8(c1.l1 as nat) =~= le8(c2.l1 as nat)) by {
        assert forall|k: int| 0 <= k < 8 implies le8(c1.l1 as nat)[k] == le8(
            c2.l1 as nat,
        )[k] by {
            assert(enc_felt(c1)[8 + k] == le8(c1.l1 as nat)[k]);
            assert(enc_felt(c2)[8 + k] == le8(c2.l1 as nat)[k]);
        }
    }
    assert(le8(c1.l2 as nat) =~= le8(c2.l2 as nat)) by {
        assert forall|k: int| 0 <= k < 8 implies le8(c1.l2 as nat)[k] == le8(
            c2.l2 as nat,
        )[k] by {
            assert(enc_felt(c1)[16 + k] == le8(c1.l2 as nat)[k]);
            assert(enc_felt(c2)[16 + k] == le8(c2.l2 as nat)[k]);
        }
    }
    assert(le8(c1.l3 as nat) =~= le8(c2.l3 as nat)) by {
        assert forall|k: int| 0 <= k < 8 implies le8(c1.l3 as nat)[k] == le8(
            c2.l3 as nat,
        )[k] by {
            assert(enc_felt(c1)[24 + k] == le8(c1.l3 as nat)[k]);
            assert(enc_felt(c2)[24 + k] == le8(c2.l3 as nat)[k]);
        }
    }
    lemma_le8_injective(c1.l0 as nat, c2.l0 as nat);
    lemma_le8_injective(c1.l1 as nat, c2.l1 as nat);
    lemma_le8_injective(c1.l2 as nat, c2.l2 as nat);
    lemma_le8_injective(c1.l3 as nat, c2.l3 as nat);
}

/// Two node encodings that start at the same position of one byte stream
/// are encodings of the same node.
proof fn lemma_enc_node_det(s: Seq<u8>, pos: int, x: Node, y: Node)
    requires
        0 <= pos,
        pos + enc_node_len(x) <= s.len(),
        pos + enc_node_len(y) <= s.len(),
        s.subrange(pos, pos + enc_node_len(x)) == enc_node(x),
        s.subrange(pos, pos + enc_node_len(y)) == enc_node(y),
    ensures
        x == y,
{
    lemma_enc_node_shape(x);
    lemma_enc_node_shape(y);
    assert(s[pos] == node_tag(x));
    assert(s[pos] == node_tag(y));
    match (x, y) {
        (Node::Input(jx), Node::Input(jy)) => {
            assert(enc_node(x) == enc_node(y));
            lemma_le8_len(jx as nat);
            lemma_le8_len(jy as nat);
            assert(le8(jx as nat) =~= le8(jy as nat)) by {
                assert forall|k: int| 0 <= k < 8 implies le8(jx as nat)[k] == le8(
                    jy as nat,
                )[k] by {
                    assert(enc_node(x)[1 + k] == le8(jx as nat)[k]);
                    assert(enc_node(y)[1 + k] == le8(jy as nat)[k]);
                }
            }
            lemma_le8_injective(jx as nat, jy as nat);
        },
        (Node::Constant(c1), Node::Constant(c2)) => {
            assert(enc_node(x) == enc_node(y));
            assert(enc_felt(c1) =~= enc_felt(c2)) by {
                lemma_enc_node_shape(x);
                assert forall|k: int| 0 <= k < 32 implies enc_felt(c1)[k] == enc_felt(
                    c2,
                )[k] by {
                    assert(enc_node(x)[1 + k] == enc_felt(c1)[k]);
                    assert(enc_node(y)[1 + k] == enc_felt(c2)[k]);
                }
            }
            lemma_enc_felt_injective(c1, c2);
        },
        (Node::MontConstant(c1), Node::MontConstant(c2)) => {
            assert(enc_node(x) == enc_node(y));
            assert(enc_felt(c1) =~= enc_felt(c2)) by {
                assert forall|k: int| 0 <= k < 32 implies enc_felt(c1)[k] == enc_felt(
                    c2,
                )[k] by {
                    assert(enc_node(x)[1 + k] == enc_felt(c1)[k]);
                    assert(enc_node(y)[1 + k] == enc_felt(c2)[k]);
                }
            }
            lemma_enc_felt_injective(c1, c2);
        },
        (Node::Op(o1, a1, b1), Node::Op(o2, a2, b2)) => {
            assert(enc_node(x) == enc_node(y));
            assert(enc_node(x)[1] == op_code(o1));
            assert(enc_node(y)[1] == op_code(o2));
            lemma_op_code_injective(o1, o2);
            lemma_le8_len(a1 as nat);
            lemma_le8_len(a2 as nat);
            lemma_le8_len(b1 as nat);
            lemma_le8_len(b2 as nat);
            assert(le8(a1 as nat) =~= le8(a2 as nat)) by {
                assert forall|k: int| 0 <= k < 8 implies le8(a1 as nat)[k] == le8(
                    a2 as nat,
                )[k] by {
                    assert(enc_node(x)[2 + k] == le8(a1 as nat)[k]);
                    assert(enc_node(y)[2 + k] == le8(a2 as nat)[k]);
                }
            }
            assert(le8(b1 as nat) =~= le8(b2 as nat)) by {
                assert forall|k: int| 0 <= k < 8 implies le8(b1 as nat)[k] == le8(
                    b2 as nat,
                )[k] by {
                    assert(enc_node(x)[10 + k] == le8(b1 as nat)[k]);
                    assert(enc_node(y)[10 + k] == le8(b2 as nat)[k]);
                }
            }
            lemma_le8_injective(a1 as nat, a2 as nat);
            lemma_le8_injective(b1 as nat, b2 as nat);
        },
        _ => {
            assert(false);
        },
    }
}

/// The first `i` nodes, encoded in order.
pub open spec fn enc_nodes(nodes: Seq<Node>, i: int) -> Seq<u8>
    decreases i,
{
    if i <= 0 {
        Seq::empty()
    } else {
        enc_nodes(nodes, i - 1) + enc_node(nodes[i - 1])
    }
}

/// The first `i` outputs, encoded in order.
pub open spec fn enc_outputs(outs: Seq<usize>, i: int) -> Seq<u8>
    decreases i,
{
    if i <= 0 {
        Seq::empty()
    } else {
        enc_outputs(outs, i - 1) + le8(outs[i - 1] as nat)
    }
}

/// The first `i` input-map entries, encoded in order.
pub open spec fn enc_map(map: Seq<(u64, InputSignalInfo)>, i: int) -> Seq<u8>
    decreases i,
{
    if i <= 0 {
        Seq::empty()
    } else {
        enc_map(map, i - 1) + le8(map[i - 1].0 as nat) + le8(map[i - 1].1.id as nat) + le8(
            map[i - 1].1.size as nat,
        )
    }
}

/// The nodes from `i` up to `j`, encoded in order.
pub open spec fn enc_nodes_range(nodes: Seq<Node>, i: int, j: int) -> Seq<u8>
    decreases j - i,
{
    if i >= j {
        Seq::empty()
    } else {
        enc_node(nodes[i]) + enc_nodes_range(nodes, i + 1, j)
    }
}

/// A node prefix splits off the remaining range.
proof fn lemma_enc_nodes_split(nodes: Seq<Node>, i: int, j: int)
    requires
        0 <= i <= j,
    ensures
        enc_nodes(nodes, j) == enc_nodes(nodes, i) + enc_nodes_range(nodes, i, j),
    decreases j - i,
{
    if i == j {
        assert(enc_nodes(nodes, i) + Seq::<u8>::empty() =~= enc_nodes(nodes, i));
    } else {
        lemma_enc_nodes_split(nodes, i + 1, j);
        lemma_concat_associative(
            enc_nodes(nodes, i),
            enc_node(nodes[i]),
            enc_nodes_range(nodes, i + 1, j),
        );
    }
}

/// The outputs from `i` up to `j`, encoded in order.
pub open spec fn enc_outputs_range(outs: Seq<usize>, i: int, j: int) -> Seq<u8>
    decreases j - i,
{
    if i >= j {
        Seq::empty()
    } else {
        le8(outs[i] as nat) + enc_outputs_range(outs, i + 1, j)
    }
}

/// An output prefix splits off the remaining range.
proof fn lemma_enc_outputs_split(outs: Seq<usize>, i: int, j: int)
    requires
        0 <= i <= j,
    ensures
        enc_outputs(outs, j) == enc_outputs(outs, i) + enc_outputs_range(outs, i, j),
    decreases j - i,
{
    if i == j {
        assert(enc_outputs(outs, i) + Seq::<u8>::empty() =~= enc_outputs(outs, i));
    } else {
        lemma_enc_outputs_split(outs, i + 1, j);
        lemma_concat_associative(
            enc_outputs(outs, i),
            le8(outs[i] as nat),
            enc_outputs_range(outs, i + 1, j),
        );
    }
}

/// The map entries from `i` up to `j`, encoded in order.
pub open spec fn enc_map_range(map: Seq<(u64, InputSignalInfo)>, i: int, j: int) -> Seq<u8>
    decreases j - i,
{
    if i >= j {
        Seq::empty()
    } else {
        le8(map[i].0 as nat) + le8(map[i].1.id as nat) + le8(map[i].1.size as nat)
            + enc_map_range(map, i + 1, j)
    }
}

/// A map prefix splits off the remaining range.
proof fn lemma_enc_map_split(map: Seq<(u64, InputSignalInfo)>, i: int, j: int)
    requires
        0 <= i <= j,
    ensures
        enc_map(map, j) == enc_map(map, i) + enc_map_range(map, i, j),
    decreases j - i,
{
    if i == j {
        assert(enc_map(map, i) + Seq::<u8>::empty() =~= enc_map(map, i));
    } else {
        lemma_enc_map_split(map, i + 1, j);
        let rec = le8(map[i].0 as nat) + le8(map[i].1.id as nat) + le8(map[i].1.size as nat);
        assert(enc_map_range(map, i, j) == rec + enc_map_range(map, i + 1, j));
        lemma_concat_associative(enc_map(map, i), le8(map[i].0 as nat), le8(map[i].1.id as nat));
        lemma_concat_associative(
            enc_map(map, i),
            le8(map[i].0 as nat) + le8(map[i].1.id as nat),
            le8(map[i].1.size as nat),
        );
        lemma_concat_associative(enc_map(map, i), rec, enc_map_range(map, i + 1, j));
    }
}

/// The whole graph: three length-prefixed sections.
pub open spec fn enc_graph(
    nodes: Seq<Node>,
    outs: Seq<usize>,
    map: Seq<(u64, InputSignalInfo)>,
) -> Seq<u8> {
    le8(nodes.len()) + enc_nodes(nodes, nodes.len() as int) + le8(outs.len()) + enc_outputs(
        outs,
        outs.len() as int,
    ) + le8(map.len()) + enc_map(map, map.len() as int)
}

/// A triple that a well-formed graph value can hold, and that therefore has
/// an encoding: topological and canonical nodes with in-range and bounded
/// input slots, outputs naming real nodes, pairwise distinct map hashes,
/// and machine-representable lengths.
pub open spec fn graph_encodable(
    n: Seq<Node>,
    o: Seq<usize>,
    m: Seq<(u64, InputSignalInfo)>,
) -> bool {
    &&& crate::graph::nodes_topo(n)
    &&& crate::graph::nodes_canon(n)
    &&& crate::graph::inputs_within(n, usize::MAX as nat)
    &&& crate::graph::inputs_bounded(n)
    &&& forall|k: int| 0 <= k < o.len() ==> #[trigger] o[k] < n.len()
    &&& forall|k1: int, k2: int|
        #![trigger m[k1], m[k2]]
        0 <= k1 < k2 < m.len() ==> m[k1].0 != m[k2].0
    &&& n.len() <= usize::MAX
    &&& o.len() <= usize::MAX
    &&& m.len() <= usize::MAX
}

/// Whether the bytes are the encoding of the given well-formed triple.
pub open spec fn encodes(
    bytes: Seq<u8>,
    n: Seq<Node>,
    o: Seq<usize>,
    m: Seq<(u64, InputSignalInfo)>,
) -> bool {
    graph_encodable(n, o, m) && bytes == enc_graph(n, o, m)
}

/// A node that the parser accepts at position `i` of the graph.
pub open spec fn parsable_node(nd: Node, i: int) -> bool {
    &&& crate::graph::node_topo(nd, i)
    &&& crate::graph::node_canon(nd)
    &&& (nd matches Node::Input(s) ==> s < usize::MAX)
}

/// The sections of an encoded graph stand at their offsets.
proof fn lemma_enc_graph_extract(
    bytes: Seq<u8>,
    n: Seq<Node>,
    o: Seq<usize>,
    m: Seq<(u64, InputSignalInfo)>,
)
    requires
        bytes == enc_graph(n, o, m),
    ensures
        bytes.len() == 24 + enc_nodes(n, n.len() as int).len() + enc_outputs(
            o,
            o.len() as int,
        ).len() + enc_map(m, m.len() as int).len(),
        bytes.subrange(0, 8) == le8(n.len()),
        bytes.subrange(8, 8 + enc_nodes(n, n.len() as int).len() as int) == enc_nodes(
            n,
            n.len() as int,
        ),
        bytes.subrange(
            8 + enc_nodes(n, n.len() as int).len() as int,
            16 + enc_nodes(n, n.len() as int).len() as int,
        ) == le8(o.len()),
        bytes.subrange(
            16 + enc_nodes(n, n.len() as int).len() as int,
            16 + enc_nodes(n, n.len() as int).len() as int + enc_outputs(
                o,
                o.len() as int,
            ).len() as int,
        ) == enc_outputs(o, o.len() as int),
        bytes.subrange(
            16 + enc_nodes(n, n.len() as int).len() as int + enc_outputs(
                o,
                o.len() as int,
            ).len() as int,
            24 + enc_nodes(n, n.len() as int).len() as int + enc_outputs(
                o,
                o.len() as int,
            ).len() as int,
        ) == le8(m.len()),
        bytes.subrange(
            24 + enc_nodes(n, n.len() as int).len() as int + enc_outputs(
                o,
                o.len() as int,
            ).len() as int,
            bytes.len() as int,
        ) == enc_map(m, m.len() as int),
{
    let a = le8(n.len());
    let b = enc_nodes(n, n.len() as int);
    let c = le8(o.len());
    let d = enc_outputs(o, o.len() as int);
    let e = le8(m.len());
    let f = enc_map(m, m.len() as int);
    lemma_le8_len(n.len());
    lemma_le8_len(o.len());
    lemma_le8_len(m.len());
    assert(bytes == ((((a + b) + c) + d) + e) + f);
    assert(bytes.subrange(0, 8) =~= a);
    assert(bytes.subrange(8, 8 + b.len() as int) =~= b);
    assert(bytes.subrange(8 + b.len() as int, 16 + b.len() as int) =~= c);
    assert(bytes.subrange(16 + b.len() as int, 16 + b.len() as int + d.len() as int) =~= d);
    assert(bytes.subrange(
        16 + b.len() as int + d.len() as int,
        24 + b.len() as int + d.len() as int,
    ) =~= e);
    assert(bytes.subrange(24 + b.len() as int + d.len() as int, bytes.len() as int) =~= f);
}

/// Under a valid encoding, the node at graph position `i` stands encoded at
/// byte position `pos`.
proof fn lemma_node_at(
    bytes: Seq<u8>,
    n2: Seq<Node>,
    o2: Seq<usize>,
    m2: Seq<(u64, InputSignalInfo)>,
    i: int,
    pos: int,
)
    requires
        encodes(bytes, n2, o2, m2),
        0 <= i < n2.len(),
        pos == 8 + enc_nodes(n2, i).len(),
    ensures
        pos + enc_node_len(n2[i]) <= bytes.len(),
        bytes.subrange(pos, pos + enc_node_len(n2[i])) == enc_node(n2[i]),
        node_encoded_at(bytes, pos, i, n2[i]),
        enc_nodes(n2, i + 1).len() == pos - 8 + enc_node_len(n2[i]),
{
    lemma_enc_graph_extract(bytes, n2, o2, m2);
    let nn = n2.len() as int;
    lemma_enc_nodes_split(n2, i, nn);
    lemma_enc_node_shape(n2[i]);
    let encn = enc_nodes(n2, nn);
    let pre = enc_nodes(n2, i);
    let tail = enc_nodes_range(n2, i, nn);
    assert(tail == enc_node(n2[i]) + enc_nodes_range(n2, i + 1, nn));
    let l = enc_node_len(n2[i]);
    assert(encn.len() == pre.len() + tail.len());
    assert(pos + l <= 8 + encn.len());
    assert(bytes.subrange(pos, pos + l) =~= enc_node(n2[i])) by {
        assert forall|k: int| 0 <= k < l implies bytes.subrange(pos, pos + l)[k] == enc_node(
            n2[i],
        )[k] by {
            assert(bytes.subrange(8, 8 + encn.len() as int)[pos - 8 + k] == encn[pos - 8 + k]);
            assert(encn[pos - 8 + k] == tail[k]);
            assert(tail[k] == enc_node(n2[i])[k]);
        }
    }
    assert(enc_nodes(n2, i + 1) == pre + enc_node(n2[i]));
    assert(crate::graph::node_topo(n2[i], i));
    assert(crate::graph::node_canon(n2[i]));
}

/// Under a valid encoding, the output record `k` stands at byte position
/// `pos`.
proof fn lemma_output_at(
    bytes: Seq<u8>,
    n2: Seq<Node>,
    o2: Seq<usize>,
    m2: Seq<(u64, InputSignalInfo)>,
    k: int,
    pos: int,
)
    requires
        encodes(bytes, n2, o2, m2),
        0 <= k < o2.len(),
        pos == 16 + enc_nodes(n2, n2.len() as int).len() as int + enc_outputs(
            o2,
            k,
        ).len() as int,
    ensures
        pos + 8 <= bytes.len(),
        bytes.subrange(pos, pos + 8) == le8(o2[k] as nat),
        enc_outputs(o2, k + 1).len() == enc_outputs(o2, k).len() + 8,
{
    lemma_enc_graph_extract(bytes, n2, o2, m2);
    let no = o2.len() as int;
    lemma_enc_outputs_split(o2, k, no);
    lemma_le8_len(o2[k] as nat);
    let base = 16 + enc_nodes(n2, n2.len() as int).len() as int;
    let enco = enc_outputs(o2, no);
    let pre = enc_outputs(o2, k);
    let tail = enc_outputs_range(o2, k, no);
    assert(tail == le8(o2[k] as nat) + enc_outputs_range(o2, k + 1, no));
    assert(enco.len() == pre.len() + tail.len());
    assert(bytes.subrange(pos, pos + 8) =~= le8(o2[k] as nat)) by {
        assert forall|q: int| 0 <= q < 8 implies bytes.subrange(pos, pos + 8)[q] == le8(
            o2[k] as nat,
        )[q] by {
            assert(bytes.subrange(base, base + enco.len() as int)[pos - base + q] == enco[pos
                - base + q]);
            assert(enco[pos - base + q] == tail[q]);
            assert(tail[q] == le8(o2[k] as nat)[q]);
        }
    }
    assert(enc_outputs(o2, k + 1) == pre + le8(o2[k] as nat));
}

/// Under a valid encoding, the map record `k` stands at byte position
/// `pos`: its hash, first slot and size, eight bytes each.
proof fn lemma_map_at(
    bytes: Seq<u8>,
    n2: Seq<Node>,
    o2: Seq<usize>,
    m2: Seq<(u64, InputSignalInfo)>,
    k: int,
    pos: int,
)
    requires
        encodes(bytes, n2, o2, m2),
        0 <= k < m2.len(),
        pos == 24 + enc_nodes(n2, n2.len() as int).len() as int + enc_outputs(
            o2,
            o2.len() as int,
        ).len() as int + enc_map(m2, k).len() as int,
    ensures
        pos + 24 <= bytes.len(),
        bytes.subrange(pos, pos + 8) == le8(m2[k].0 as nat),
        bytes.subrange(pos + 8, pos + 16) == le8(m2[k].1.id as nat),
        bytes.subrange(pos + 16, pos + 24) == le8(m2[k].1.size as nat),
        enc_map(m2, k + 1).len() == enc_map(m2, k).len() + 24,
{
    lemma_enc_graph_extract(bytes, n2, o2, m2);
    let nm = m2.len() as int;
    lemma_enc_map_split(m2, k, nm);
    lemma_le8_len(m2[k].0 as nat);
    lemma_le8_len(m2[k].1.id as nat);
    lemma_le8_len(m2[k].1.size as nat);
    let base = 24 + enc_nodes(n2, n2.len() as int).len() as int + enc_outputs(
        o2,
        o2.len() as int,
    ).len() as int;
    let encm = enc_map(m2, nm);
    let pre = enc_map(m2, k);
    let tail = enc_map_range(m2, k, nm);
    let rec = le8(m2[k].0 as nat) + le8(m2[k].1.id as nat) + le8(m2[k].1.size as nat);
    assert(tail == rec + enc_map_range(m2, k + 1, nm));
    assert(encm.len() == pre.len() + tail.len());
    assert forall|q: int| 0 <= q < 24 implies bytes[pos + q] == rec[q] by {
        assert(bytes.subrange(base, base + encm.len() as int)[pos - base + q] == encm[pos - base
            + q]);
        assert(encm[pos - base + q] == tail[q]);
        assert(tail[q] == rec[q]);
    }
    assert(bytes.subrange(pos, pos + 8) =~= le8(m2[k].0 as nat));
    assert(bytes.subrange(pos + 8, pos + 16) =~= le8(m2[k].1.id as nat));
    assert(bytes.subrange(pos + 16, pos + 24) =~= le8(m2[k].1.size as nat));
    lemma_concat_associative(pre, le8(m2[k].0 as nat), le8(m2[k].1.id as nat));
    lemma_concat_associative(pre, le8(m2[k].0 as nat) + le8(m2[k].1.id as nat), le8(
        m2[k].1.size as nat,
    ));
    assert(enc_map(m2, k + 1) == pre + rec);
}

/// Appends the 32 bytes of a field element.
fn write_felt(out: &mut Vec<u8>, f: &Felt)
    ensures
        final(out)@ == old(out)@ + enc_felt(*f),
{
    let ghost base = out@;
    write_u64(out, f.l0);
    write_u64(out, f.l1);
    write_u64(out, f.l2);
    write_u64(out, f.l3);
    proof {
        lemma_concat_associative(base, le8(f.l0 as nat), le8(f.l1 as nat));
        lemma_concat_associative(base, le8(f.l0 as nat) + le8(f.l1 as nat), le8(f.l2 as nat));
        lemma_concat_associative(
            base,
            le8(f.l0 as nat) + le8(f.l1 as nat) + le8(f.l2 as nat),
            le8(f.l3 as nat),
        );
    }
}

/// Serializes a graph: exactly its spec encoding.
#[verifier::rlimit(100)]
pub fn serialize(g: &Graph) -> (r: Vec<u8>)
    ensures
        r@ == enc_graph(g.nodes@, g.outputs@, g.input_map@),
{
    let mut out: Vec<u8> = Vec::new();
    let n = g.nodes.len();
    write_u64(&mut out, n as u64);
    for i in 0..n
        invariant
            n == g.nodes@.len(),
            out@ =~= le8(n as nat) + enc_nodes(g.nodes@, i as int),
    {
        let ghost before = out@;
        match g.nodes[i] {
            Node::Input(j) => {
                out.push(0);
                write_u64(&mut out, j as u64);
                proof {
                    assert(before.push(0u8) =~= before + seq![0u8]);
                    lemma_concat_associative(before, seq![0u8], le8(j as nat));
                }
            },
            Node::Constant(c) => {
                out.push(1);
                write_felt(&mut out, &c);
                proof {
                    assert(before.push(1u8) =~= before + seq![1u8]);
                    lemma_concat_associative(before, seq![1u8], enc_felt(c));
                }
            },
            Node::MontConstant(c) => {
                out.push(2);
                write_felt(&mut out, &c);
                proof {
                    assert(before.push(2u8) =~= before + seq![2u8]);
                    lemma_concat_associative(before, seq![2u8], enc_felt(c));
                }
            },
            Node::Op(op, a, b) => {
                out.push(3);
                out.push(op_code_exec(op));
                write_u64(&mut out, a as u64);
                write_u64(&mut out, b as u64);
                proof {
                    assert(before.push(3u8).push(op_code(op)) =~= before + seq![
                        3u8,
                        op_code(op),
                    ]);
                    lemma_concat_associative(before, seq![3u8, op_code(op)], le8(a as nat));
                    lemma_concat_associative(
                        before,
                        seq![3u8, op_code(op)] + le8(a as nat),
                        le8(b as nat),
                    );
                }
            },
        }
        proof {
            assert(out@ == before + enc_node(g.nodes@[i as int]));
            lemma_concat_associative(
                le8(n as nat),
                enc_nodes(g.nodes@, i as int),
                enc_node(g.nodes@[i as int]),
            );
            assert(out@ =~= le8(n as nat) + enc_nodes(g.nodes@, i + 1));
        }
    }
    let no = g.outputs.len();
    let ghost nodes_part = out@;
    write_u64(&mut out, no as u64);
    for k in 0..no
        invariant
            no == g.outputs@.len(),
            out@ =~= nodes_part + le8(no as nat) + enc_outputs(g.outputs@, k as int),
    {
        let ghost before = out@;
        write_u64(&mut out, g.outputs[k] as u64);
        proof {
            lemma_concat_associative(
                nodes_part + le8(no as nat),
                enc_outputs(g.outputs@, k as int),
                le8(g.outputs@[k as int] as nat),
            );
            assert(out@ =~= nodes_part + le8(no as nat) + enc_outputs(g.outputs@, k + 1));
        }
    }
    let nm = g.input_map.len();
    let ghost outs_part = out@;
    write_u64(&mut out, nm as u64);
    for k in 0..nm
        invariant
            nm == g.input_map@.len(),
            out@ =~= outs_part + le8(nm as nat) + enc_map(g.input_map@, k as int),
    {
        let ghost before = out@;
        let e = g.input_map[k];
        write_u64(&mut out, e.0);
        write_u64(&mut out, e.1.id as u64);
        write_u64(&mut out, e.1.size as u64);
        proof {
            let base = outs_part + le8(nm as nat);
            let ek = enc_map(g.input_map@, k as int);
            lemma_concat_associative(base, ek, le8(e.0 as nat));
            lemma_concat_associative(base, ek + le8(e.0 as nat), le8(e.1.id as nat));
            lemma_concat_associative(
                base,
                ek + le8(e.0 as nat) + le8(e.1.id as nat),
                le8(e.1.size as nat),
            );
            assert(out@ =~= outs_part + le8(nm as nat) + enc_map(g.input_map@, k + 1));
        }
    }
    proof {
        assert(out@ =~= enc_graph(g.nodes@, g.outputs@, g.input_map@));
    }
    out
}

/// Reads 32 bytes as a field element.
fn read_felt(bytes: &Vec<u8>, pos: usize) -> (r: Felt)
    requires
        pos + 32 <= bytes@.len(),
    ensures
        enc_felt(r) == bytes@.subrange(pos as int, pos as int + 32),
{
    let bl = bytes.len();
    let l0 = read_u64(bytes, pos);
    let l1 = read_u64(bytes, pos + 8);
    let l2 = read_u64(bytes, pos + 16);
    let l3 = read_u64(bytes, pos + 24);
    proof {
        assert(bytes@.subrange(pos as int, pos as int + 32) =~= bytes@.subrange(
            pos as int,
            pos as int + 8,
        ) + bytes@.subrange(pos as int + 8, pos as int + 16) + bytes@.subrange(
            pos as int + 16,
            pos as int + 24,
        ) + bytes@.subrange(pos as int + 24, pos as int + 32));
        assert(enc_felt(Felt { l0, l1, l2, l3 }) == le8(l0 as nat) + le8(l1 as nat) + le8(
            l2 as nat,
        ) + le8(l3 as nat));
    }
    Felt { l0, l1, l2, l3 }
}

/// The encoding of a prefix depends only on that prefix.
proof fn lemma_enc_nodes_prefix(s1: Seq<Node>, s2: Seq<Node>, i: int)
    requires
        forall|j: int| 0 <= j < i ==> s1[j] == s2[j],
    ensures
        enc_nodes(s1, i) == enc_nodes(s2, i),
    decreases i,
{
    if i > 0 {
        lemma_enc_nodes_prefix(s1, s2, i - 1);
    }
}

/// The encoding of an output prefix depends only on that prefix.
proof fn lemma_enc_outputs_prefix(s1: Seq<usize>, s2: Seq<usize>, i: int)
    requires
        forall|j: int| 0 <= j < i ==> s1[j] == s2[j],
    ensures
        enc_outputs(s1, i) == enc_outputs(s2, i),
    decreases i,
{
    if i > 0 {
        lemma_enc_outputs_prefix(s1, s2, i - 1);
    }
}

/// The encoding of a map prefix depends only on that prefix.
proof fn lemma_enc_map_prefix(
    s1: Seq<(u64, InputSignalInfo)>,
    s2: Seq<(u64, InputSignalInfo)>,
    i: int,
)
    requires
        forall|j: int| 0 <= j < i ==> s1[j] == s2[j],
    ensures
        enc_map(s1, i) == enc_map(s2, i),
    decreases i,
{
    if i > 0 {
        lemma_enc_map_prefix(s1, s2, i - 1);
    }
}

/// The felt encoding is 32 bytes.
proof fn lemma_enc_felt_len(c: Felt)
    ensures
        enc_felt(c).len() == 32,
{
    lemma_le8_len(c.l0 as nat);
    lemma_le8_len(c.l1 as nat);
    lemma_le8_len(c.l2 as nat);
    lemma_le8_len(c.l3 as nat);
}

/// Whether a node the parser would accept at graph position `i` stands
/// encoded at byte position `pos`.
pub open spec fn node_encoded_at(bytes: Seq<u8>, pos: int, i: int, nd: Node) -> bool {
    &&& parsable_node(nd, i)
    &&& pos + enc_node_len(nd) <= bytes.len()
    &&& bytes.subrange(pos, pos + enc_node_len(nd)) == enc_node(nd)
}

/// Parses one node at `pos`; on success the consumed bytes are exactly the
/// node's encoding, its operands lie below `i`, its constant is canonical,
/// and its input slot is below the largest index. On failure no acceptable
/// node stands encoded at `pos`.
#[verifier::rlimit(100)]
fn parse_node(bytes: &Vec<u8>, pos: usize, i: usize, m: &Felt) -> (r: Result<(Node, usize), Error>)
    requires
        pos <= bytes@.len(),
        m.as_nat() == p(),
    ensures
        match r {
            Ok((node, newpos)) => {
                &&& pos < newpos <= bytes@.len()
                &&& newpos - pos == enc_node_len(node)
                &&& bytes@.subrange(pos as int, newpos as int) =~= enc_node(node)
                &&& crate::graph::node_topo(node, i as int)
                &&& crate::graph::node_canon(node)
                &&& (node matches Node::Input(s) ==> s < usize::MAX)
            },
            Err(e) => (e matches Error::MalformedGraph) && forall|nd: Node|
                !node_encoded_at(bytes@, pos as int, i as int, nd),
        },
{
    let len = bytes.len();
    if len - pos < 1 {
        proof {
            assert forall|nd: Node| !node_encoded_at(bytes@, pos as int, i as int, nd) by {
                lemma_enc_node_shape(nd);
            }
        }
        return Err(Error::MalformedGraph);
    }
    let tag = bytes[pos];
    match tag {
        0 => {
            if len - pos < 9 {
                proof {
                    assert forall|nd: Node| !node_encoded_at(
                        bytes@,
                        pos as int,
                        i as int,
                        nd,
                    ) by {
                        lemma_enc_node_shape(nd);
                        if node_encoded_at(bytes@, pos as int, i as int, nd) {
                            assert(bytes@[pos as int] == node_tag(nd));
                        }
                    }
                }
                return Err(Error::MalformedGraph);
            }
            let j = read_u64(bytes, pos + 1);
            if j >= usize::MAX as u64 {
                proof {
                    assert forall|nd: Node| !node_encoded_at(
                        bytes@,
                        pos as int,
                        i as int,
                        nd,
                    ) by {
                        lemma_enc_node_shape(nd);
                        if node_encoded_at(bytes@, pos as int, i as int, nd) {
                            assert(bytes@[pos as int] == node_tag(nd));
                            match nd {
                                Node::Input(s) => {
                                    lemma_le8_len(s as nat);
                                    lemma_le8_len(j as nat);
                                    assert(le8(s as nat) =~= le8(j as nat)) by {
                                        assert forall|k: int| 0 <= k < 8 implies le8(
                                            s as nat,
                                        )[k] == le8(j as nat)[k] by {
                                            assert(enc_node(nd)[1 + k] == le8(s as nat)[k]);
                                            assert(bytes@[pos + 1 + k] == le8(s as nat)[k]);
                                            assert(bytes@.subrange(
                                                pos as int + 1,
                                                pos as int + 9,
                                            )[k] == le8(j as nat)[k]);
                                        }
                                    }
                                    lemma_le8_injective(s as nat, j as nat);
                                },
                                _ => {},
                            }
                        }
                    }
                }
                return Err(Error::MalformedGraph);
            }
            let node = Node::Input(j as usize);
            proof {
                assert(bytes@.subrange(pos as int, pos as int + 9) =~= bytes@.subrange(
                    pos as int,
                    pos as int + 1,
                ) + bytes@.subrange(pos as int + 1, pos as int + 9));
                assert(bytes@.subrange(pos as int, pos as int + 1) =~= seq![0u8]);
                assert(bytes@.subrange(pos as int, pos as int + 9) =~= enc_node(node));
                lemma_enc_node_shape(node);
            }
            Ok((node, pos + 9))
        },
        1 => {
            match parse_felt_const(bytes, pos, i, m, false) {
                Ok(t) => Ok(t),
                Err(e) => Err(e),
            }
        },
        2 => {
            match parse_felt_const(bytes, pos, i, m, true) {
                Ok(t) => Ok(t),
                Err(e) => Err(e),
            }
        },
        3 => {
            if len - pos < 18 {
                proof {
                    assert forall|nd: Node| !node_encoded_at(
                        bytes@,
                        pos as int,
                        i as int,
                        nd,
                    ) by {
                        lemma_enc_node_shape(nd);
                        if node_encoded_at(bytes@, pos as int, i as int, nd) {
                            assert(bytes@[pos as int] == node_tag(nd));
                        }
                    }
                }
                return Err(Error::MalformedGraph);
            }
            let code = bytes[pos + 1];
            let ghost forced: Node = arbitrary();
            proof {
                assert forall|nd: Node|
                    node_encoded_at(bytes@, pos as int, i as int, nd) implies (
                nd matches Node::Op(o2, a2, b2) && code == op_code(o2) && a2 < i && b2 < i
                    && le8(a2 as nat) == bytes@.subrange(pos as int + 2, pos as int + 10) && le8(
                    b2 as nat,
                ) == bytes@.subrange(pos as int + 10, pos as int + 18)) by {
                    lemma_enc_node_shape(nd);
                    assert(bytes@[pos as int] == node_tag(nd));
                    match nd {
                        Node::Op(o2, a2, b2) => {
                            assert(bytes@[pos + 1] == enc_node(nd)[1]);
                            lemma_le8_len(a2 as nat);
                            lemma_le8_len(b2 as nat);
                            assert(le8(a2 as nat) =~= bytes@.subrange(
                                pos as int + 2,
                                pos as int + 10,
                            )) by {
                                assert forall|k: int| 0 <= k < 8 implies le8(a2 as nat)[k]
                                    == bytes@.subrange(pos as int + 2, pos as int + 10)[k] by {
                                    assert(enc_node(nd)[2 + k] == le8(a2 as nat)[k]);
                                    assert(bytes@[pos + 2 + k] == le8(a2 as nat)[k]);
                                }
                            }
                            assert(le8(b2 as nat) =~= bytes@.subrange(
                                pos as int + 10,
                                pos as int + 18,
                            )) by {
                                assert forall|k: int| 0 <= k < 8 implies le8(b2 as nat)[k]
                                    == bytes@.subrange(pos as int + 10, pos as int + 18)[k] by {
                                    assert(enc_node(nd)[10 + k] == le8(b2 as nat)[k]);
                                    assert(bytes@[pos + 10 + k] == le8(b2 as nat)[k]);
                                }
                            }
                        },
                        _ => {},
                    }
                }
            }
            let op = match op_from_code(code) {
                Some(op) => op,
                None => {
                    return Err(Error::MalformedGraph);
                },
            };
            let a = read_u64(bytes, pos + 2);
            let b = read_u64(bytes, pos + 10);
            if a >= i as u64 || b >= i as u64 {
                proof {
                    assert forall|nd: Node| !node_encoded_at(
                        bytes@,
                        pos as int,
                        i as int,
                        nd,
                    ) by {
                        if node_encoded_at(bytes@, pos as int, i as int, nd) {
                            match nd {
                                Node::Op(o2, a2, b2) => {
                                    lemma_le8_injective(a2 as nat, a as nat);
                                    lemma_le8_injective(b2 as nat, b as nat);
                                },
                                _ => {},
                            }
                        }
                    }
                }
                return Err(Error::MalformedGraph);
            }
            let node = Node::Op(op, a as usize, b as usize);
            proof {
                assert(bytes@.subrange(pos as int, pos as int + 18) =~= bytes@.subrange(
                    pos as int,
                    pos as int + 2,
                ) + bytes@.subrange(pos as int + 2, pos as int + 10) + bytes@.subrange(
                    pos as int + 10,
                    pos as int + 18,
                ));
                assert(bytes@.subrange(pos as int, pos as int + 2) =~= seq![3u8, op_code(op)]);
                assert(bytes@.subrange(pos as int, pos as int + 18) =~= enc_node(node));
                lemma_enc_node_shape(node);
            }
            Ok((node, pos + 18))
        },
        _ => {
            proof {
                assert forall|nd: Node| !node_encoded_at(bytes@, pos as int, i as int, nd) by {
                    lemma_enc_node_shape(nd);
                    if node_encoded_at(bytes@, pos as int, i as int, nd) {
                        assert(bytes@[pos as int] == node_tag(nd));
                    }
                }
            }
            Err(Error::MalformedGraph)
        },
    }
}

/// Parses a constant or Montgomery-constant node at `pos`, whose tag byte
/// has already been seen.
#[verifier::rlimit(100)]
fn parse_felt_const(bytes: &Vec<u8>, pos: usize, i: usize, m: &Felt, mont: bool) -> (r: Result<
    (Node, usize),
    Error,
>)
    requires
        pos < bytes@.len(),
        m.as_nat() == p(),
        bytes@[pos as int] == (if mont {
            2u8
        } else {
            1u8
        }),
    ensures
        match r {
            Ok((node, newpos)) => {
                &&& pos < newpos <= bytes@.len()
                &&& newpos - pos == enc_node_len(node)
                &&& bytes@.subrange(pos as int, newpos as int) =~= enc_node(node)
                &&& crate::graph::node_topo(node, i as int)
                &&& crate::graph::node_canon(node)
                &&& (node matches Node::Input(s) ==> s < usize::MAX)
            },
            Err(e) => (e matches Error::MalformedGraph) && forall|nd: Node|
                !node_encoded_at(bytes@, pos as int, i as int, nd),
        },
{
    let len = bytes.len();
    if len - pos < 33 {
        proof {
            assert forall|nd: Node| !node_encoded_at(bytes@, pos as int, i as int, nd) by {
                lemma_enc_node_shape(nd);
                if node_encoded_at(bytes@, pos as int, i as int, nd) {
                    assert(bytes@[pos as int] == node_tag(nd));
                }
            }
        }
        return Err(Error::MalformedGraph);
    }
    let c = read_felt(bytes, pos + 1);
    if !felt_lt(&c, m) {
        proof {
            assert forall|nd: Node| !node_encoded_at(bytes@, pos as int, i as int, nd) by {
                lemma_enc_node_shape(nd);
                if node_encoded_at(bytes@, pos as int, i as int, nd) {
                    assert(bytes@[pos as int] == node_tag(nd));
                    let cc = match nd {
                        Node::Constant(cc) => cc,
                        Node::MontConstant(cc) => cc,
                        _ => c,
                    };
                    lemma_enc_felt_len(cc);
                    lemma_enc_felt_len(c);
                    assert(enc_felt(cc) =~= enc_felt(c)) by {
                        assert forall|k: int| 0 <= k < 32 implies enc_felt(cc)[k] == enc_felt(
                            c,
                        )[k] by {
                            assert(enc_node(nd)[1 + k] == enc_felt(cc)[k]);
                            assert(bytes@[pos + 1 + k] == enc_felt(cc)[k]);
                            assert(bytes@.subrange(pos as int + 1, pos as int + 33)[k]
                                == enc_felt(c)[k]);
                        }
                    }
                    lemma_enc_felt_injective(cc, c);
                }
            }
        }
        return Err(Error::MalformedGraph);
    }
    let node = if mont {
        Node::MontConstant(c)
    } else {
        Node::Constant(c)
    };
    proof {
        assert(bytes@.subrange(pos as int, pos as int + 33) =~= bytes@.subrange(
            pos as int,
            pos as int + 1,
        ) + bytes@.subrange(pos as int + 1, pos as int + 33));
        if mont {
            assert(bytes@.subrange(pos as int, pos as int + 1) =~= seq![2u8]);
        } else {
            assert(bytes@.subrange(pos as int, pos as int + 1) =~= seq![1u8]);
        }
        assert(bytes@.subrange(pos as int, pos as int + 33) =~= enc_node(node));
        lemma_enc_node_shape(node);
    }
    Ok((node, pos + 33))
}

/// Deserializes a graph. A returned graph is well formed and encodes back
/// to exactly the bytes given, and it is the only well-formed graph that
/// does; a malformed-graph error comes exactly on bytes that no well-formed
/// graph encodes to.
#[verifier::rlimit(100)]
pub fn deserialize(bytes: &Vec<u8>) -> (r: Result<Graph, Error>)
    ensures
        match r {
            Ok(g) => {
                &&& graph_wf(&g)
                &&& bytes@ == enc_graph(g.nodes@, g.outputs@, g.input_map@)
                &&& forall|n2: Seq<Node>, o2: Seq<usize>, m2: Seq<(u64, InputSignalInfo)>|
                    #[trigger] encodes(bytes@, n2, o2, m2) ==> g.nodes@ == n2 && g.outputs@ == o2
                        && g.input_map@ == m2
            },
            Err(e) => {
                &&& e matches Error::MalformedGraph
                &&& forall|n2: Seq<Node>, o2: Seq<usize>, m2: Seq<(u64, InputSignalInfo)>|
                    !(#[trigger] encodes(bytes@, n2, o2, m2))
            },
        },
{
    let len = bytes.len();
    let m = modulus();
    if len < 8 {
        proof {
            assert forall|n2: Seq<Node>, o2: Seq<usize>, m2: Seq<(u64, InputSignalInfo)>|
                !(#[trigger] encodes(bytes@, n2, o2, m2)) by {
                if encodes(bytes@, n2, o2, m2) {
                    lemma_enc_graph_extract(bytes@, n2, o2, m2);
                }
            }
        }
        return Err(Error::MalformedGraph);
    }
    let n64 = read_u64(bytes, 0);
    proof {
        assert forall|n2: Seq<Node>, o2: Seq<usize>, m2: Seq<(u64, InputSignalInfo)>| #[trigger] encodes(
            bytes@,
            n2,
            o2,
            m2,
        ) implies n64 as nat == n2.len() by {
            lemma_enc_graph_extract(bytes@, n2, o2, m2);
            lemma_le8_injective(n64 as nat, n2.len());
        }
    }
    if n64 > usize::MAX as u64 {
        proof {
            assert forall|n2: Seq<Node>, o2: Seq<usize>, m2: Seq<(u64, InputSignalInfo)>|
                !(#[trigger] encodes(bytes@, n2, o2, m2)) by {
                if encodes(bytes@, n2, o2, m2) {
                    assert(n64 as nat == n2.len());
                }
            }
        }
        return Err(Error::MalformedGraph);
    }
    let n = n64 as usize;
    let mut pos: usize = 8;
    let mut nodes: Vec<Node> = Vec::new();
    for i in 0..n
        invariant
            len == bytes@.len(),
            m.as_nat() == p(),
            nodes@.len() == i,
            8 <= pos <= len,
            crate::graph::nodes_topo(nodes@),
            crate::graph::nodes_canon(nodes@),
            crate::graph::inputs_within(nodes@, usize::MAX as nat),
            bytes@.subrange(8, pos as int) == enc_nodes(nodes@, i as int),
            forall|n2: Seq<Node>, o2: Seq<usize>, m2: Seq<(u64, InputSignalInfo)>|
                #[trigger] encodes(bytes@, n2, o2, m2) ==> n == n2.len() && i <= n2.len()
                    && nodes@ == n2.subrange(0, i as int) && pos == 8 + enc_nodes(
                    n2,
                    i as int,
                ).len(),
    {
        let ghost consumed = bytes@.subrange(8, pos as int);
        let ghost oldpos = pos as int;
        let (node, newpos) = match parse_node(bytes, pos, i, &m) {
            Ok(t) => t,
            Err(e) => {
                proof {
                    assert forall|n2: Seq<Node>, o2: Seq<usize>, m2: Seq<(u64, InputSignalInfo)>|
                        !(#[trigger] encodes(bytes@, n2, o2, m2)) by {
                        if encodes(bytes@, n2, o2, m2) {
                            lemma_node_at(bytes@, n2, o2, m2, i as int, pos as int);
                        }
                    }
                }
                return Err(e);
            },
        };
        proof {
            assert(bytes@.subrange(8, newpos as int) =~= consumed + bytes@.subrange(
                pos as int,
                newpos as int,
            ));
        }
        pos = newpos;
        let ghost nodes0 = nodes@;
        nodes.push(node);
        proof {
            lemma_enc_nodes_prefix(nodes0, nodes@, i as int);
            assert(bytes@.subrange(8, pos as int) == enc_nodes(nodes@, i as int) + enc_node(
                node,
            ));
            assert(nodes@[i as int] == node);
            assert(bytes@.subrange(8, pos as int) == enc_nodes(nodes@, i + 1));
            assert forall|n2: Seq<Node>, o2: Seq<usize>, m2: Seq<(u64, InputSignalInfo)>| #[trigger] encodes(
                bytes@,
                n2,
                o2,
                m2,
            ) implies nodes@ == n2.subrange(0, i + 1) && pos == 8 + enc_nodes(
                n2,
                i + 1,
            ).len() by {
                lemma_node_at(bytes@, n2, o2, m2, i as int, oldpos);
                lemma_enc_node_det(bytes@, oldpos, node, n2[i as int]);
                assert(nodes@ =~= n2.subrange(0, i as int).push(n2[i as int]));
                assert(n2.subrange(0, i as int).push(n2[i as int]) =~= n2.subrange(0, i + 1));
            }
        }
    }
    let ghost nodes_end = pos as int;
    if len - pos < 8 {
        proof {
            assert forall|n2: Seq<Node>, o2: Seq<usize>, m2: Seq<(u64, InputSignalInfo)>|
                !(#[trigger] encodes(bytes@, n2, o2, m2)) by {
                if encodes(bytes@, n2, o2, m2) {
                    lemma_enc_graph_extract(bytes@, n2, o2, m2);
                }
            }
        }
        return Err(Error::MalformedGraph);
    }
    let no64 = read_u64(bytes, pos);
    proof {
        assert forall|n2: Seq<Node>, o2: Seq<usize>, m2: Seq<(u64, InputSignalInfo)>| #[trigger] encodes(
            bytes@,
            n2,
            o2,
            m2,
        ) implies no64 as nat == o2.len() by {
            lemma_enc_graph_extract(bytes@, n2, o2, m2);
            lemma_le8_injective(no64 as nat, o2.len());
        }
    }
    if no64 > usize::MAX as u64 {
        proof {
            assert forall|n2: Seq<Node>, o2: Seq<usize>, m2: Seq<(u64, InputSignalInfo)>|
                !(#[trigger] encodes(bytes@, n2, o2, m2)) by {
                if encodes(bytes@, n2, o2, m2) {
                    assert(no64 as nat == o2.len());
                }
            }
        }
        return Err(Error::MalformedGraph);
    }
    let no = no64 as usize;
    pos = pos + 8;
    let mut outputs: Vec<usize> = Vec::new();
    for k in 0..no
        invariant
            len == bytes@.len(),
            nodes@.len() == n,
            outputs@.len() == k,
            pos <= len,
            0 <= nodes_end,
            nodes_end + 8 <= pos,
            forall|k2: int| 0 <= k2 < k ==> #[trigger] outputs@[k2] < nodes@.len(),
            bytes@.subrange(nodes_end + 8, pos as int) == enc_outputs(outputs@, k as int),
            forall|n2: Seq<Node>, o2: Seq<usize>, m2: Seq<(u64, InputSignalInfo)>|
                #[trigger] encodes(bytes@, n2, o2, m2) ==> n == n2.len() && no == o2.len() && k
                    <= o2.len() && outputs@ == o2.subrange(0, k as int) && nodes_end == 8
                    + enc_nodes(n2, n2.len() as int).len() && pos == nodes_end + 8 + enc_outputs(
                    o2,
                    k as int,
                ).len(),
    {
        let ghost consumed = bytes@.subrange(nodes_end + 8, pos as int);
        let ghost oldpos = pos as int;
        if len - pos < 8 {
            proof {
                assert forall|n2: Seq<Node>, o2: Seq<usize>, m2: Seq<(u64, InputSignalInfo)>|
                    !(#[trigger] encodes(bytes@, n2, o2, m2)) by {
                    if encodes(bytes@, n2, o2, m2) {
                        lemma_output_at(bytes@, n2, o2, m2, k as int, pos as int);
                    }
                }
            }
            return Err(Error::MalformedGraph);
        }
        let o = read_u64(bytes, pos);
        if o >= n as u64 {
            proof {
                assert forall|n2: Seq<Node>, o2: Seq<usize>, m2: Seq<(u64, InputSignalInfo)>|
                    !(#[trigger] encodes(bytes@, n2, o2, m2)) by {
                    if encodes(bytes@, n2, o2, m2) {
                        lemma_output_at(bytes@, n2, o2, m2, k as int, pos as int);
                        lemma_le8_injective(o as nat, o2[k as int] as nat);
                    }
                }
            }
            return Err(Error::MalformedGraph);
        }
        let ghost outs0 = outputs@;
        outputs.push(o as usize);
        pos = pos + 8;
        proof {
            lemma_enc_outputs_prefix(outs0, outputs@, k as int);
            assert(bytes@.subrange(nodes_end + 8, pos as int) =~= consumed + bytes@.subrange(
                oldpos,
                oldpos + 8,
            ));
            assert(bytes@.subrange(nodes_end + 8, pos as int) == enc_outputs(outputs@, k as int)
                + le8(o as nat));
            assert(outputs@[k as int] == o as usize);
            assert(bytes@.subrange(nodes_end + 8, pos as int) == enc_outputs(outputs@, k + 1));
            assert forall|n2: Seq<Node>, o2: Seq<usize>, m2: Seq<(u64, InputSignalInfo)>| #[trigger] encodes(
                bytes@,
                n2,
                o2,
                m2,
            ) implies outputs@ == o2.subrange(0, k + 1) && pos == nodes_end + 8 + enc_outputs(
                o2,
                k + 1,
            ).len() by {
                lemma_output_at(bytes@, n2, o2, m2, k as int, oldpos);
                lemma_le8_injective(o as nat, o2[k as int] as nat);
                assert(outputs@ =~= o2.subrange(0, k as int).push(o2[k as int]));
                assert(o2.subrange(0, k as int).push(o2[k as int]) =~= o2.subrange(0, k + 1));
            }
        }
    }
    let ghost outs_end = pos as int;
    if len - pos < 8 {
        proof {
            assert forall|n2: Seq<Node>, o2: Seq<usize>, m2: Seq<(u64, InputSignalInfo)>|
                !(#[trigger] encodes(bytes@, n2, o2, m2)) by {
                if encodes(bytes@, n2, o2, m2) {
                    lemma_enc_graph_extract(bytes@, n2, o2, m2);
                }
            }
        }
        return Err(Error::MalformedGraph);
    }
    let nm64 = read_u64(bytes, pos);
    proof {
        assert forall|n2: Seq<Node>, o2: Seq<usize>, m2: Seq<(u64, InputSignalInfo)>| #[trigger] encodes(
            bytes@,
            n2,
            o2,
            m2,
        ) implies nm64 as nat == m2.len() by {
            lemma_enc_graph_extract(bytes@, n2, o2, m2);
            lemma_le8_injective(nm64 as nat, m2.len());
        }
    }
    if nm64 > usize::MAX as u64 {
        proof {
            assert forall|n2: Seq<Node>, o2: Seq<usize>, m2: Seq<(u64, InputSignalInfo)>|
                !(#[trigger] encodes(bytes@, n2, o2, m2)) by {
                if encodes(bytes@, n2, o2, m2) {
                    assert(nm64 as nat == m2.len());
                }
            }
        }
        return Err(Error::MalformedGraph);
    }
    let nm = nm64 as usize;
    pos = pos + 8;
    let mut input_map: Vec<(u64, InputSignalInfo)> = Vec::new();
    for k in 0..nm
        invariant
            len == bytes@.len(),
            input_map@.len() == k,
            pos <= len,
            0 <= outs_end,
            outs_end + 8 <= pos,
            bytes@.subrange(outs_end + 8, pos as int) == enc_map(input_map@, k as int),
            forall|n2: Seq<Node>, o2: Seq<usize>, m2: Seq<(u64, InputSignalInfo)>|
                #[trigger] encodes(bytes@, n2, o2, m2) ==> nm == m2.len() && k <= m2.len()
                    && input_map@ == m2.subrange(0, k as int) && outs_end == 16 + enc_nodes(
                    n2,
                    n2.len() as int,
                ).len() as int + enc_outputs(o2, o2.len() as int).len() as int && pos == outs_end
                    + 8 + enc_map(m2, k as int).len(),
    {
        let ghost consumed = bytes@.subrange(outs_end + 8, pos as int);
        let ghost oldpos = pos as int;
        if len - pos < 24 {
            proof {
                assert forall|n2: Seq<Node>, o2: Seq<usize>, m2: Seq<(u64, InputSignalInfo)>|
                    !(#[trigger] encodes(bytes@, n2, o2, m2)) by {
                    if encodes(bytes@, n2, o2, m2) {
                        lemma_map_at(bytes@, n2, o2, m2, k as int, pos as int);
                    }
                }
            }
            return Err(Error::MalformedGraph);
        }
        let hash = read_u64(bytes, pos);
        let id = read_u64(bytes, pos + 8);
        let size = read_u64(bytes, pos + 16);
        if id > usize::MAX as u64 || size > usize::MAX as u64 {
            proof {
                assert forall|n2: Seq<Node>, o2: Seq<usize>, m2: Seq<(u64, InputSignalInfo)>|
                    !(#[trigger] encodes(bytes@, n2, o2, m2)) by {
                    if encodes(bytes@, n2, o2, m2) {
                        lemma_map_at(bytes@, n2, o2, m2, k as int, pos as int);
                        lemma_le8_injective(id as nat, m2[k as int].1.id as nat);
                        lemma_le8_injective(size as nat, m2[k as int].1.size as nat);
                    }
                }
            }
            return Err(Error::MalformedGraph);
        }
        let ghost map0 = input_map@;
        input_map.push((hash, InputSignalInfo { id: id as usize, size: size as usize }));
        pos = pos + 24;
        proof {
            lemma_enc_map_prefix(map0, input_map@, k as int);
            assert(bytes@.subrange(outs_end + 8, pos as int) =~= consumed + bytes@.subrange(
                oldpos,
                oldpos + 8,
            ) + bytes@.subrange(oldpos + 8, oldpos + 16) + bytes@.subrange(
                oldpos + 16,
                oldpos + 24,
            ));
            assert(bytes@.subrange(outs_end + 8, pos as int) == enc_map(input_map@, k as int)
                + le8(hash as nat) + le8(id as nat) + le8(size as nat));
            assert(input_map@[k as int].0 == hash && input_map@[k as int].1.id == id as usize
                && input_map@[k as int].1.size == size as usize);
            assert(bytes@.subrange(outs_end + 8, pos as int) == enc_map(input_map@, k + 1));
            assert forall|n2: Seq<Node>, o2: Seq<usize>, m2: Seq<(u64, InputSignalInfo)>| #[trigger] encodes(
                bytes@,
                n2,
                o2,
                m2,
            ) implies input_map@ == m2.subrange(0, k + 1) && pos == outs_end + 8 + enc_map(
                m2,
                k + 1,
            ).len() by {
                lemma_map_at(bytes@, n2, o2, m2, k as int, oldpos);
                lemma_le8_injective(hash as nat, m2[k as int].0 as nat);
                lemma_le8_injective(id as nat, m2[k as int].1.id as nat);
                lemma_le8_injective(size as nat, m2[k as int].1.size as nat);
                assert(input_map@[k as int] == m2[k as int]);
                assert(input_map@ =~= m2.subrange(0, k as int).push(m2[k as int]));
                assert(m2.subrange(0, k as int).push(m2[k as int]) =~= m2.subrange(0, k + 1));
            }
        }
    }
    proof {
        assert forall|n2: Seq<Node>, o2: Seq<usize>, m2: Seq<(u64, InputSignalInfo)>| #[trigger] encodes(
            bytes@,
            n2,
            o2,
            m2,
        ) implies nodes@ == n2 && outputs@ == o2 && input_map@ == m2 && pos == len by {
            lemma_enc_graph_extract(bytes@, n2, o2, m2);
            assert(nodes@ == n2.subrange(0, n2.len() as int));
            assert(n2.subrange(0, n2.len() as int) =~= n2);
            assert(outputs@ == o2.subrange(0, o2.len() as int));
            assert(o2.subrange(0, o2.len() as int) =~= o2);
            assert(input_map@ == m2.subrange(0, m2.len() as int));
            assert(m2.subrange(0, m2.len() as int) =~= m2);
        }
    }
    if pos != len {
        proof {
            assert forall|n2: Seq<Node>, o2: Seq<usize>, m2: Seq<(u64, InputSignalInfo)>|
                !(#[trigger] encodes(bytes@, n2, o2, m2)) by {}
        }
        return Err(Error::MalformedGraph);
    }
    // The input map must not declare one hash twice.
    let ml = input_map.len();
    for k1 in 0..ml
        invariant
            ml == input_map@.len(),
            len == bytes@.len(),
            forall|j1: int, j2: int|
                #![trigger input_map@[j1], input_map@[j2]]
                0 <= j1 < j2 < ml && j1 < k1 ==> input_map@[j1].0 != input_map@[j2].0,
            forall|n2: Seq<Node>, o2: Seq<usize>, m2: Seq<(u64, InputSignalInfo)>|
                #[trigger] encodes(bytes@, n2, o2, m2) ==> input_map@ == m2,
    {
        let h1 = input_map[k1].0;
        let mut k2 = k1 + 1;
        while k2 < ml
            invariant
                ml == input_map@.len(),
                len == bytes@.len(),
                k1 < ml,
                k1 < k2 <= ml,
                h1 == input_map@[k1 as int].0,
                forall|j2: int|
                    k1 < j2 < k2 ==> input_map@[k1 as int].0 != (#[trigger] input_map@[j2]).0,
                forall|n2: Seq<Node>, o2: Seq<usize>, m2: Seq<(u64, InputSignalInfo)>|
                    #[trigger] encodes(bytes@, n2, o2, m2) ==> input_map@ == m2,
            decreases ml - k2,
        {
            if input_map[k2].0 == h1 {
                proof {
                    assert forall|n2: Seq<Node>, o2: Seq<usize>, m2: Seq<(u64, InputSignalInfo)>|
                        !(#[trigger] encodes(bytes@, n2, o2, m2)) by {
                        if encodes(bytes@, n2, o2, m2) {
                            assert(m2[k1 as int].0 != m2[k2 as int].0);
                        }
                    }
                }
                return Err(Error::MalformedGraph);
            }
            k2 += 1;
        }
    }
    let g = Graph { nodes, outputs, input_map };
    // Every input reference must fit the input size the graph reports.
    let size = get_inputs_size(&g);
    let gn = g.nodes.len();
    for i in 0..gn
        invariant
            gn == g.nodes@.len(),
            len == bytes@.len(),
            size == inputs_size_spec(g.nodes@, 0, false, 0),
            forall|j: int|
                0 <= j < i ==> (#[trigger] g.nodes@[j] matches Node::Input(s) ==> (s as nat)
                    < size),
            forall|n2: Seq<Node>, o2: Seq<usize>, m2: Seq<(u64, InputSignalInfo)>|
                #[trigger] encodes(bytes@, n2, o2, m2) ==> g.nodes@ == n2,
    {
        if let Node::Input(s) = g.nodes[i] {
            if s >= size {
                proof {
                    assert forall|n2: Seq<Node>, o2: Seq<usize>, m2: Seq<(u64, InputSignalInfo)>|
                        !(#[trigger] encodes(bytes@, n2, o2, m2)) by {
                        if encodes(bytes@, n2, o2, m2) {
                            assert(g.nodes@[i as int] matches Node::Input(s2) ==> (s2 as nat)
                                < inputs_size_spec(n2, 0, false, 0));
                        }
                    }
                }
                return Err(Error::MalformedGraph);
            }
        }
    }
    proof {
        assert(bytes@.subrange(0, 8) =~= le8(n as nat));
        assert(bytes@.subrange(nodes_end, nodes_end + 8) =~= le8(no as nat));
        assert(bytes@.subrange(outs_end, outs_end + 8) =~= le8(nm as nat));
        assert(bytes@ =~= bytes@.subrange(0, 8) + bytes@.subrange(8, nodes_end) + bytes@.subrange(
            nodes_end,
            nodes_end + 8,
        ) + bytes@.subrange(nodes_end + 8, outs_end) + bytes@.subrange(outs_end, outs_end + 8)
            + bytes@.subrange(outs_end + 8, len as int));
        assert(bytes@ == le8(n as nat) + enc_nodes(g.nodes@, n as int) + le8(no as nat)
            + enc_outputs(g.outputs@, no as int) + le8(nm as nat) + enc_map(
            g.input_map@,
            nm as int,
        ));
        assert(bytes@ =~= enc_graph(g.nodes@, g.outputs@, g.input_map@));
    }
    Ok(g)
}

/// Equal node prefixes under two encodings of the same bytes.
proof fn lemma_nodes_prefix_det(
    bytes: Seq<u8>,
    n1: Seq<Node>,
    o1: Seq<usize>,
    m1: Seq<(u64, InputSignalInfo)>,
    n2: Seq<Node>,
    o2: Seq<usize>,
    m2: Seq<(u64, InputSignalInfo)>,
    i: int,
)
    requires
        encodes(bytes, n1, o1, m1),
        encodes(bytes, n2, o2, m2),
        n1.len() == n2.len(),
        0 <= i <= n1.len(),
    ensures
        n1.subrange(0, i) == n2.subrange(0, i),
        enc_nodes(n1, i).len() == enc_nodes(n2, i).len(),
    decreases i,
{
    if i > 0 {
        lemma_nodes_prefix_det(bytes, n1, o1, m1, n2, o2, m2, i - 1);
        let pos = 8 + enc_nodes(n1, i - 1).len() as int;
        lemma_node_at(bytes, n1, o1, m1, i - 1, pos);
        lemma_node_at(bytes, n2, o2, m2, i - 1, pos);
        lemma_enc_node_det(bytes, pos, n1[i - 1], n2[i - 1]);
        assert(n1.subrange(0, i) =~= n1.subrange(0, i - 1).push(n1[i - 1]));
        assert(n2.subrange(0, i) =~= n2.subrange(0, i - 1).push(n2[i - 1]));
    } else {
        assert(n1.subrange(0, 0) =~= n2.subrange(0, 0));
    }
}

/// Equal output prefixes under two encodings of the same bytes.
proof fn lemma_outputs_prefix_det(
    bytes: Seq<u8>,
    n1: Seq<Node>,
    o1: Seq<usize>,
    m1: Seq<(u64, InputSignalInfo)>,
    n2: Seq<Node>,
    o2: Seq<usize>,
    m2: Seq<(u64, InputSignalInfo)>,
    k: int,
)
    requires
        encodes(bytes, n1, o1, m1),
        encodes(bytes, n2, o2, m2),
        o1.len() == o2.len(),
        enc_nodes(n1, n1.len() as int).len() == enc_nodes(n2, n2.len() as int).len(),
        0 <= k <= o1.len(),
    ensures
        o1.subrange(0, k) == o2.subrange(0, k),
        enc_outputs(o1, k).len() == enc_outputs(o2, k).len(),
    decreases k,
{
    if k > 0 {
        lemma_outputs_prefix_det(bytes, n1, o1, m1, n2, o2, m2, k - 1);
        let pos = 16 + enc_nodes(n1, n1.len() as int).len() as int + enc_outputs(
            o1,
            k - 1,
        ).len() as int;
        lemma_output_at(bytes, n1, o1, m1, k - 1, pos);
        lemma_output_at(bytes, n2, o2, m2, k - 1, pos);
        lemma_le8_injective(o1[k - 1] as nat, o2[k - 1] as nat);
        assert(o1.subrange(0, k) =~= o1.subrange(0, k - 1).push(o1[k - 1]));
        assert(o2.subrange(0, k) =~= o2.subrange(0, k - 1).push(o2[k - 1]));
    } else {
        assert(o1.subrange(0, 0) =~= o2.subrange(0, 0));
    }
}

/// Equal map prefixes under two encodings of the same bytes.
proof fn lemma_map_prefix_det(
    bytes: Seq<u8>,
    n1: Seq<Node>,
    o1: Seq<usize>,
    m1: Seq<(u64, InputSignalInfo)>,
    n2: Seq<Node>,
    o2: Seq<usize>,
    m2: Seq<(u64, InputSignalInfo)>,
    k: int,
)
    requires
        encodes(bytes, n1, o1, m1),
        encodes(bytes, n2, o2, m2),
        m1.len() == m2.len(),
        enc_nodes(n1, n1.len() as int).len() == enc_nodes(n2, n2.len() as int).len(),
        enc_outputs(o1, o1.len() as int).len() == enc_outputs(o2, o2.len() as int).len(),
        0 <= k <= m1.len(),
    ensures
        m1.subrange(0, k) == m2.subrange(0, k),
        enc_map(m1, k).len() == enc_map(m2, k).len(),
    decreases k,
{
    if k > 0 {
        lemma_map_prefix_det(bytes, n1, o1, m1, n2, o2, m2, k - 1);
        let pos = 24 + enc_nodes(n1, n1.len() as int).len() as int + enc_outputs(
            o1,
            o1.len() as int,
        ).len() as int + enc_map(m1, k - 1).len() as int;
        lemma_map_at(bytes, n1, o1, m1, k - 1, pos);
        lemma_map_at(bytes, n2, o2, m2, k - 1, pos);
        lemma_le8_injective(m1[k - 1].0 as nat, m2[k - 1].0 as nat);
        lemma_le8_injective(m1[k - 1].1.id as nat, m2[k - 1].1.id as nat);
        lemma_le8_injective(m1[k - 1].1.size as nat, m2[k - 1].1.size as nat);
        assert(m1.subrange(0, k) =~= m1.subrange(0, k - 1).push(m1[k - 1]));
        assert(m2.subrange(0, k) =~= m2.subrange(0, k - 1).push(m2[k - 1]));
    } else {
        assert(m1.subrange(0, 0) =~= m2.subrange(0, 0));
    }
}

/// The encoding is injective: two well-formed triples with the same bytes
/// are the same triple.
pub proof fn lemma_enc_graph_injective(
    bytes: Seq<u8>,
    n1: Seq<Node>,
    o1: Seq<usize>,
    m1: Seq<(u64, InputSignalInfo)>,
    n2: Seq<Node>,
    o2: Seq<usize>,
    m2: Seq<(u64, InputSignalInfo)>,
)
    requires
        encodes(bytes, n1, o1, m1),
        encodes(bytes, n2, o2, m2),
    ensures
        n1 == n2,
        o1 == o2,
        m1 == m2,
{
    lemma_enc_graph_extract(bytes, n1, o1, m1);
    lemma_enc_graph_extract(bytes, n2, o2, m2);
    lemma_le8_injective(n1.len(), n2.len());
    lemma_nodes_prefix_det(bytes, n1, o1, m1, n2, o2, m2, n1.len() as int);
    assert(n1.subrange(0, n1.len() as int) =~= n1);
    assert(n2.subrange(0, n2.len() as int) =~= n2);
    lemma_le8_injective(o1.len(), o2.len());
    lemma_outputs_prefix_det(bytes, n1, o1, m1, n2, o2, m2, o1.len() as int);
    assert(o1.subrange(0, o1.len() as int) =~= o1);
    assert(o2.subrange(0, o2.len() as int) =~= o2);
    lemma_le8_injective(m1.len(), m2.len());
    lemma_map_prefix_det(bytes, n1, o1, m1, n2, o2, m2, m1.len() as int);
    assert(m1.subrange(0, m1.len() as int) =~= m1);
    assert(m2.subrange(0, m2.len() as int) =~= m2);
}

/// The round trip: a well-formed graph's serialized bytes are a valid
/// encoding of exactly its own triple, so by `deserialize`'s contract,
/// deserializing what `serialize` produced succeeds and returns the graph
/// it was given, component for component.
pub proof fn lemma_serialized_graph_encodes(g: &Graph)
    requires
        graph_wf(g),
        g.nodes@.len() <= usize::MAX,
        g.outputs@.len() <= usize::MAX,
        g.input_map@.len() <= usize::MAX,
    ensures
        encodes(
            enc_graph(g.nodes@, g.outputs@, g.input_map@),
            g.nodes@,
            g.outputs@,
            g.input_map@,
        ),
{
}

/// Loads a graph from its serialized bytes; fails exactly on malformed
/// input, that is on bytes that no well-formed graph encodes to.
pub fn init_graph(graph_bytes: &Vec<u8>) -> (r: Result<Graph, Error>)
    ensures
        match r {
            Ok(g) => {
                &&& graph_wf(&g)
                &&& graph_bytes@ == enc_graph(g.nodes@, g.outputs@, g.input_map@)
                &&& forall|n2: Seq<Node>, o2: Seq<usize>, m2: Seq<(u64, InputSignalInfo)>|
                    #[trigger] encodes(graph_bytes@, n2, o2, m2) ==> g.nodes@ == n2 && g.outputs@
                        == o2 && g.input_map@ == m2
            },
            Err(e) => {
                &&& e matches Error::MalformedGraph
                &&& forall|n2: Seq<Node>, o2: Seq<usize>, m2: Seq<(u64, InputSignalInfo)>|
                    !(#[trigger] encodes(graph_bytes@, n2, o2, m2))
            },
        },
{
    deserialize(graph_bytes)
}

} // verus!
