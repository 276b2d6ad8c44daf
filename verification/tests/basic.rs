use witness::bind::{calculate_witness, fnv1a};
use witness::codec::{init_graph, serialize};
use witness::field::{Felt, P_LIMB_0, P_LIMB_1, P_LIMB_2, P_LIMB_3};
use witness::graph::{evaluate, get_inputs_size, Graph, InputSignalInfo, Node};
use witness::ops::{eval, Error, Operation};
use witness::opt::optimize;
use witness::recorder::{create_vec, create_vec_u32, generate_position_array, undefined, Recorder};

fn f(v: u64) -> Felt {
    Felt::from_u64(v)
}

fn p_minus(k: u64) -> Felt {
    Felt {
        l0: P_LIMB_0 - k,
        l1: P_LIMB_1,
        l2: P_LIMB_2,
        l3: P_LIMB_3,
    }
}

#[test]
fn fnv1a_conformance() {
    assert_eq!(fnv1a(""), 0xCBF29CE484222325);
    assert_eq!(fnv1a("a"), 0xAF63DC4C8601EC8C);
}

#[test]
fn trivial_product() {
    let nodes = vec![Node::Input(0), Node::Input(1), Node::Op(Operation::Mul, 0, 1)];
    let outputs = vec![2];
    let w = evaluate(&nodes, &vec![f(3), f(5)], &outputs).unwrap();
    assert_eq!(w, vec![f(15)]);
}

#[test]
fn constant_folding() {
    let mut nodes = vec![
        Node::Constant(f(2)),
        Node::Constant(f(3)),
        Node::Op(Operation::Add, 0, 1),
        Node::Input(0),
        Node::Op(Operation::Mul, 2, 3),
    ];
    let mut outputs = vec![4];
    optimize(&mut nodes, &mut outputs);
    assert!(nodes.len() <= 3);
    let w = evaluate(&nodes, &vec![f(7)], &outputs).unwrap();
    assert_eq!(w, vec![f(35)]);
}

#[test]
fn common_subexpressions_merge() {
    let mut nodes = vec![
        Node::Input(0),
        Node::Op(Operation::Mul, 0, 0),
        Node::Op(Operation::Mul, 0, 0),
        Node::Op(Operation::Add, 1, 2),
    ];
    let mut outputs = vec![3];
    optimize(&mut nodes, &mut outputs);
    assert_eq!(nodes.len(), 3);
    let w = evaluate(&nodes, &vec![f(4)], &outputs).unwrap();
    assert_eq!(w, vec![f(32)]);
}

#[test]
fn field_wrap_around() {
    let nodes = vec![Node::Input(0), Node::Input(1), Node::Op(Operation::Add, 0, 1)];
    let outputs = vec![2];
    let w = evaluate(&nodes, &vec![p_minus(1), f(2)], &outputs).unwrap();
    assert_eq!(w, vec![f(1)]);
}

#[test]
fn division() {
    let nodes = vec![Node::Input(0), Node::Input(1), Node::Op(Operation::Div, 0, 1)];
    let outputs = vec![2];
    let w = evaluate(&nodes, &vec![f(6), f(3)], &outputs).unwrap();
    assert_eq!(w, vec![f(2)]);
    let e = evaluate(&nodes, &vec![f(1), f(0)], &outputs);
    assert!(matches!(e, Err(Error::Arithmetic)));
}

#[test]
fn pow_zero_is_one() {
    let r = eval(Operation::Pow, &f(0), &f(0)).unwrap();
    assert_eq!(r, f(1));
    let r = eval(Operation::Pow, &f(7), &f(0)).unwrap();
    assert_eq!(r, f(1));
}

#[test]
fn sub_self_folds_to_zero() {
    let mut nodes = vec![Node::Input(0), Node::Op(Operation::Sub, 0, 0)];
    let mut outputs = vec![1];
    optimize(&mut nodes, &mut outputs);
    assert_eq!(nodes, vec![Node::Constant(f(0))]);
    assert_eq!(outputs, vec![0]);
}

#[test]
fn montgomery_constant_resolves() {
    // The Montgomery form of 5: (5 * 2^256) mod p, computed independently.
    let m = ruint::aliases::U256::from_limbs([P_LIMB_0, P_LIMB_1, P_LIMB_2, P_LIMB_3]);
    let r_mod_p = (ruint::aliases::U256::MAX % m).wrapping_add(ruint::aliases::U256::from(1)) % m;
    let vm = r_mod_p.mul_mod(ruint::aliases::U256::from(5), m);
    let l = vm.as_limbs();
    let mont = Felt {
        l0: l[0],
        l1: l[1],
        l2: l[2],
        l3: l[3],
    };
    assert_ne!(mont, f(5));
    let mut nodes = vec![Node::MontConstant(mont), Node::Constant(f(5)), Node::Op(Operation::Add, 0, 1)];
    let mut outputs = vec![2];
    let w = evaluate(&nodes, &vec![], &outputs).unwrap();
    assert_eq!(w, vec![f(10)]);
    // After optimization the Montgomery constant is gone and folded away.
    optimize(&mut nodes, &mut outputs);
    assert_eq!(nodes, vec![Node::Constant(f(10))]);
}

#[test]
fn input_binding_by_name() {
    let nodes = vec![Node::Input(0), Node::Input(1), Node::Input(2), Node::Input(3)];
    let outputs = vec![1, 2, 3];
    let graph = Graph {
        nodes,
        outputs,
        input_map: vec![(fnv1a("in"), InputSignalInfo { id: 1, size: 3 })],
    };
    assert_eq!(get_inputs_size(&graph), 4);
    let inputs = vec![("in".to_string(), vec![f(2), f(3), f(5)])];
    let w = calculate_witness(&inputs, &graph).unwrap();
    assert_eq!(w, vec![f(2), f(3), f(5)]);

    let bad_name = vec![("out".to_string(), vec![f(2)])];
    assert!(matches!(
        calculate_witness(&bad_name, &graph),
        Err(Error::UnknownInput(_))
    ));
    let bad_size = vec![("in".to_string(), vec![f(2)])];
    assert!(matches!(
        calculate_witness(&bad_size, &graph),
        Err(Error::SizeMismatch(3, 1))
    ));
    let bad_value = vec![("in".to_string(), vec![f(2), f(3), p_minus(0)])];
    assert!(matches!(
        calculate_witness(&bad_value, &graph),
        Err(Error::InputOutOfRange)
    ));
}

#[test]
fn recorder_builds_graph() {
    let mut rec = Recorder::new();
    let a = rec.input(0, f(0));
    let b = rec.input(1, f(0));
    let prod = rec.binop(Operation::Mul, a, b).unwrap();
    let two = rec.constant(f(2));
    let s = rec.binop(Operation::Add, prod, two).unwrap();
    assert!(rec.is_true(two));
    assert_eq!(rec.to_int(two), 2);
    let mut nodes = rec.get_graph();
    assert_eq!(rec.get_values().len(), nodes.len());
    let mut outputs = vec![s.0];
    optimize(&mut nodes, &mut outputs);
    let w = evaluate(&nodes, &vec![f(3), f(5)], &outputs).unwrap();
    assert_eq!(w, vec![f(17)]);
}

#[test]
fn recorder_derived_operations() {
    let mut rec = Recorder::new();
    let x = rec.constant(f(9));
    let n = rec.neg(x);
    let sq = rec.square(x);
    let inv = rec.inv(x).unwrap();
    let mut nodes = rec.get_graph();
    let mut outputs = vec![n.0, sq.0, inv.0];
    let back = evaluate(&nodes, &vec![], &outputs).unwrap();
    assert_eq!(back[0], p_minus(9));
    assert_eq!(back[1], f(81));
    // inverse of nine times nine is one
    let check = eval(Operation::Mul, &back[2], &f(9)).unwrap();
    assert_eq!(check, f(1));
    optimize(&mut nodes, &mut outputs);
    let again = evaluate(&nodes, &vec![], &outputs).unwrap();
    assert_eq!(again[0], p_minus(9));
    assert_eq!(again[1], f(81));
    let z = rec.constant(f(0));
    let zero_div = rec.inv(z);
    assert!(matches!(zero_div, Err(Error::Arithmetic)));
}

#[test]
fn serializer_round_trip() {
    let graph = Graph {
        nodes: vec![
            Node::Input(0),
            Node::Constant(f(7)),
            Node::MontConstant(f(9)),
            Node::Op(Operation::Mul, 0, 1),
        ],
        outputs: vec![3, 2],
        input_map: vec![(fnv1a("in"), InputSignalInfo { id: 0, size: 1 })],
    };
    let bytes = serialize(&graph);
    let back = init_graph(&bytes).unwrap();
    assert_eq!(back, graph);

    // A truncated stream is malformed.
    let mut short = bytes.clone();
    short.pop();
    assert!(matches!(init_graph(&short), Err(Error::MalformedGraph)));
    // A node with an unknown tag is malformed.
    let bad = vec![1, 0, 0, 0, 0, 0, 0, 0, 9];
    assert!(matches!(init_graph(&bad), Err(Error::MalformedGraph)));
    // An operation reaching forward is malformed.
    let mut fwd = Graph {
        nodes: vec![Node::Op(Operation::Add, 0, 0)],
        outputs: vec![],
        input_map: vec![],
    };
    let fwd_bytes = serialize(&mut fwd);
    assert!(matches!(init_graph(&fwd_bytes), Err(Error::MalformedGraph)));
}

#[test]
fn optimize_is_idempotent_on_examples() {
    let graphs = vec![
        (
            vec![
                Node::Constant(f(2)),
                Node::Constant(f(3)),
                Node::Op(Operation::Add, 0, 1),
                Node::Input(0),
                Node::Op(Operation::Mul, 2, 3),
            ],
            vec![4],
        ),
        (
            vec![
                Node::Input(0),
                Node::Op(Operation::Mul, 0, 0),
                Node::Op(Operation::Mul, 0, 0),
                Node::Op(Operation::Add, 1, 2),
            ],
            vec![3],
        ),
        (vec![Node::Input(0), Node::Op(Operation::Sub, 0, 0)], vec![1]),
    ];
    for (nodes0, outputs0) in graphs {
        let mut nodes = nodes0.clone();
        let mut outputs = outputs0.clone();
        optimize(&mut nodes, &mut outputs);
        let once = serialize(&Graph {
            nodes: nodes.clone(),
            outputs: outputs.clone(),
            input_map: vec![],
        });
        optimize(&mut nodes, &mut outputs);
        let twice = serialize(&Graph {
            nodes,
            outputs,
            input_map: vec![],
        });
        assert_eq!(once, twice);
    }
}

#[test]
fn position_array_rendering() {
    let s = generate_position_array("x".to_string(), vec![2, 3], 2, 5);
    assert_eq!(s, "[1][2]x");
    let t = generate_position_array(String::new(), vec![10], 1, 7);
    assert_eq!(t, "[7]");
}

#[test]
fn constants_table_records() {
    // The Montgomery form of 5, computed independently.
    let m = ruint::aliases::U256::from_limbs([P_LIMB_0, P_LIMB_1, P_LIMB_2, P_LIMB_3]);
    let r_mod_p = (ruint::aliases::U256::MAX % m).wrapping_add(ruint::aliases::U256::from(1)) % m;
    let vm = r_mod_p.mul_mod(ruint::aliases::U256::from(5), m);

    let mut bytes: Vec<u8> = Vec::new();
    // short positive 5
    bytes.extend_from_slice(&5u32.to_le_bytes());
    bytes.extend_from_slice(&0u32.to_le_bytes());
    bytes.extend_from_slice(&[0u8; 32]);
    // short negative: -1 becomes p - 1
    bytes.extend_from_slice(&(-1i32).to_le_bytes());
    bytes.extend_from_slice(&0u32.to_le_bytes());
    bytes.extend_from_slice(&[0u8; 32]);
    // long canonical 7
    bytes.extend_from_slice(&7u32.to_le_bytes());
    bytes.extend_from_slice(&0x8000_0000u32.to_le_bytes());
    bytes.extend_from_slice(&ruint::aliases::U256::from(7).to_le_bytes::<32>());
    // long Montgomery form of 5
    bytes.extend_from_slice(&0u32.to_le_bytes());
    bytes.extend_from_slice(&0xC000_0000u32.to_le_bytes());
    bytes.extend_from_slice(&vm.to_le_bytes::<32>());

    let cs = witness::loader::get_constants(&bytes, 0, 4).unwrap();
    assert_eq!(cs, vec![f(5), p_minus(1), f(7), f(5)]);

    // A long record at or above the prime is malformed.
    let mut bad: Vec<u8> = Vec::new();
    bad.extend_from_slice(&0u32.to_le_bytes());
    bad.extend_from_slice(&0x8000_0000u32.to_le_bytes());
    bad.extend_from_slice(&m.to_le_bytes::<32>());
    assert!(matches!(
        witness::loader::get_constants(&bad, 0, 1),
        Err(Error::MalformedGraph)
    ));
}

#[test]
fn input_and_witness_tables() {
    let mut bytes: Vec<u8> = Vec::new();
    bytes.extend_from_slice(&fnv1a("in").to_le_bytes());
    bytes.extend_from_slice(&1u64.to_le_bytes());
    bytes.extend_from_slice(&3u64.to_le_bytes());
    let es = witness::loader::get_input_hash_map(&bytes, 0, 1).unwrap();
    assert_eq!(es, vec![(fnv1a("in"), InputSignalInfo { id: 1, size: 3 })]);

    let mut wb: Vec<u8> = Vec::new();
    wb.extend_from_slice(&4u64.to_le_bytes());
    wb.extend_from_slice(&2u64.to_le_bytes());
    let ws = witness::loader::get_witness_to_signal(&wb, 0, 2).unwrap();
    assert_eq!(ws, vec![4, 2]);
    assert!(witness::loader::get_witness_to_signal(&wb, 0, 3).is_err());
}

#[test]
fn modulus_matches_curve_order() {
    let limbs = <ark_bn254::Fr as ark_ff::PrimeField>::MODULUS.0;
    assert_eq!(limbs, [P_LIMB_0, P_LIMB_1, P_LIMB_2, P_LIMB_3]);
}

#[test]
fn helper_buffers() {
    assert_eq!(undefined().0, usize::MAX);
    let v = create_vec(3);
    assert_eq!(v.len(), 3);
    assert!(v.iter().all(|h| h.0 == usize::MAX));
    let u = create_vec_u32(4);
    assert_eq!(u, vec![0, 0, 0, 0]);
}

#[test]
fn comparison_and_bitwise_operators() {
    assert_eq!(eval(Operation::Lt, &f(3), &f(5)).unwrap(), f(1));
    assert_eq!(eval(Operation::Geq, &f(5), &f(5)).unwrap(), f(1));
    assert_eq!(eval(Operation::Eq, &f(5), &f(5)).unwrap(), f(1));
    assert_eq!(eval(Operation::Neq, &f(5), &f(5)).unwrap(), f(0));
    assert_eq!(eval(Operation::Band, &f(12), &f(10)).unwrap(), f(8));
    assert_eq!(eval(Operation::Bor, &f(12), &f(10)).unwrap(), f(14));
    assert_eq!(eval(Operation::Bxor, &f(12), &f(10)).unwrap(), f(6));
    assert_eq!(eval(Operation::Shl, &f(3), &f(4)).unwrap(), f(48));
    assert_eq!(eval(Operation::Shr, &f(48), &f(4)).unwrap(), f(3));
    assert_eq!(eval(Operation::Idiv, &f(17), &f(5)).unwrap(), f(3));
    assert_eq!(eval(Operation::Mod, &f(17), &f(5)).unwrap(), f(2));
    assert_eq!(eval(Operation::Land, &f(7), &f(2)).unwrap(), f(1));
    assert_eq!(eval(Operation::Lor, &f(0), &f(0)).unwrap(), f(0));
    assert!(matches!(
        eval(Operation::Idiv, &f(1), &f(0)),
        Err(Error::Arithmetic)
    ));
}
