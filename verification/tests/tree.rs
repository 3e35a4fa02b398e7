use bitvector_diff::binary::BinaryOp;
use bitvector_diff::formula::{moves_for_id, Move, Node, NodeContent, Op};
use bitvector_diff::grad::Grad;
use bitvector_diff::solving::Instance;
use bitvector_diff::unary::UnaryOp;
use rand::SeedableRng;

fn leaf(id: usize, input: usize) -> Node {
    Node { id, data: NodeContent::Input(input), outputs: None, grads: None }
}

fn unary(id: usize, op: UnaryOp, child: Node) -> Node {
    Node {
        id,
        data: NodeContent::UnaryNode { op, child: Box::new(child) },
        outputs: None,
        grads: None,
    }
}

fn binary(id: usize, op: BinaryOp, left: Node, right: Node) -> Node {
    Node {
        id,
        data: NodeContent::BinaryNode { op, left: Box::new(left), right: Box::new(right) },
        outputs: None,
        grads: None,
    }
}

#[test]
fn forward_binary_tree() {
    // x0 & x1 on two examples.
    let mut f = binary(1, BinaryOp::And, leaf(2, 0), leaf(3, 1));
    let inputs = vec![vec![0b1100u32, 0b1010u32], vec![0xffff_0000u32, 0x0f0f_0f0fu32]];
    let out = f.forward(&inputs);
    assert_eq!(out, vec![0b1000u32, 0x0f0f_0000u32]);
    // The memoized pass returns the same values.
    let out2 = f.forward(&inputs);
    assert_eq!(out2, vec![0b1000u32, 0x0f0f_0000u32]);
}

#[test]
fn forward_unary_tree() {
    // !(x0 << 4) on one example.
    let mut f = unary(1, UnaryOp::Not, unary(2, UnaryOp::LeftShift(4), leaf(4, 0)));
    let inputs = vec![vec![0x0000_00ffu32]];
    let out = f.forward(&inputs);
    assert_eq!(out, vec![!(0x0000_0ff0u32)]);
}

#[test]
fn size_counts_nodes() {
    let f = binary(1, BinaryOp::Xor, unary(2, UnaryOp::Not, leaf(4, 0)), leaf(3, 1));
    assert_eq!(f.size(), 4);
}

#[test]
fn moves_for_id_encodes_path() {
    // Id 6 is the left child of the right child of the root; the vector
    // is consumed by popping from the back.
    assert_eq!(moves_for_id(1), vec![]);
    assert_eq!(moves_for_id(6), vec![Move::Left, Move::Right]);
    assert_eq!(moves_for_id(2), vec![Move::Left]);
    assert_eq!(moves_for_id(3), vec![Move::Right]);
    assert_eq!(moves_for_id(5), vec![Move::Right, Move::Left]);
}

#[test]
fn update_gate_refreshes_forward() {
    // x0 & x1, then rewire the left leaf to x1: the root's memoized
    // output must not survive the mutation.
    let mut f = binary(1, BinaryOp::And, leaf(2, 0), leaf(3, 1));
    let inputs = vec![vec![0b1100u32, 0b1010u32]];
    let out = f.forward(&inputs);
    assert_eq!(out, vec![0b1000u32]);
    f.update_gate(2, Op::Input(1));
    let out = f.forward(&inputs);
    assert_eq!(out, vec![0b1010u32]);
    // Changing the root gate refreshes the root as well.
    f.update_gate(1, Op::Binary(BinaryOp::Xor));
    let out = f.forward(&inputs);
    assert_eq!(out, vec![0u32]);
}

#[test]
fn update_gate_changes_shift() {
    let mut f = unary(1, UnaryOp::LeftShift(1), leaf(2, 0));
    let inputs = vec![vec![0x11u32]];
    assert_eq!(f.forward(&inputs), vec![0x22u32]);
    f.update_gate(1, Op::Unary(UnaryOp::RightShift(4)));
    assert_eq!(f.forward(&inputs), vec![0x1u32]);
}

#[test]
fn current_score_counts_matching_bits() {
    let mut f = leaf(1, 0);
    let instance = Instance {
        inputs: vec![vec![0u32], vec![0xffff_ffffu32], vec![0x0000_ffffu32]],
        outputs: vec![0u32, 0xffff_ffffu32, 0u32],
    };
    // Examples one and two match on all 32 bits, example three on 16.
    assert_eq!(f.current_score(&instance), 32 + 32 + 16);
}

#[test]
fn current_score_invariant_under_reordering() {
    let mut f = binary(1, BinaryOp::Or, leaf(2, 0), leaf(3, 1));
    let instance = Instance {
        inputs: vec![vec![1u32, 2], vec![4, 8], vec![0x30, 0]],
        outputs: vec![3u32, 12, 0x55],
    };
    let permuted = Instance {
        inputs: vec![vec![0x30u32, 0], vec![1, 2], vec![4, 8]],
        outputs: vec![0x55u32, 3, 12],
    };
    let s1 = f.current_score(&instance);
    let mut g = binary(1, BinaryOp::Or, leaf(2, 0), leaf(3, 1));
    let s2 = g.current_score(&permuted);
    assert_eq!(s1, s2);
    // And the quality is a fraction of [0, 1]: at most 32 per example.
    assert!(s1 <= 3 * 32);
}

#[test]
fn get_scores_plants_root_sensitivity() {
    // After the backward pass, the root holds influence all-ones and the
    // target word of each example.
    let mut f = binary(1, BinaryOp::And, leaf(2, 0), leaf(3, 1));
    let instance = Instance {
        inputs: vec![vec![5u32, 3], vec![7, 1]],
        outputs: vec![1u32, 2],
    };
    let scores = f.get_scores(&instance);
    assert_eq!(scores.values.len(), 3);
    assert_eq!(scores.values[0].0, 1);
    assert_eq!(
        f.grads,
        Some(vec![
            Grad { influence: 0xffff_ffff, target: 1 },
            Grad { influence: 0xffff_ffff, target: 2 },
        ])
    );
}

#[test]
fn get_scores_input_deltas_exact() {
    // A single input leaf over three inputs: the two candidates are the
    // other input indices, and each delta counts the change in matching
    // bits against the target.
    let mut f = leaf(1, 0);
    let instance = Instance {
        inputs: vec![vec![0u32, 0xffff_ffffu32, 0x0000_ffffu32]],
        outputs: vec![0u32],
    };
    let scores = f.get_scores(&instance);
    assert_eq!(scores.values.len(), 1);
    let (id, deltas) = &scores.values[0];
    assert_eq!(*id, 1);
    match deltas {
        bitvector_diff::grad::Deltas::Input(v) => {
            // Current input matches on 32 bits; input 1 on 0; input 2 on 16.
            assert_eq!(v.as_slice(), &[(1usize, -32i64), (2usize, -16i64)]);
        },
        _ => panic!("an input leaf builds an input table"),
    }
}

#[test]
fn random_tree_has_requested_size() {
    let mut rng = rand::rngs::StdRng::seed_from_u64(7);
    for size in 1..=20usize {
        let mut f = Node::random(3, size, 1, &mut rng);
        assert_eq!(f.size(), size);
        // Every input reference stays below the arity: rows of width 3
        // are enough for any leaf the generator picked.
        let inputs = vec![vec![1u32, 2, 3], vec![4, 5, 6]];
        let out = f.forward(&inputs);
        assert_eq!(out.len(), 2);
    }
}

#[test]
fn to_instance_matches_tree() {
    let mut rng = rand::rngs::StdRng::seed_from_u64(11);
    let mut f = Node::random(4, 7, 1, &mut rng);
    let (inputs, outputs) = f.to_instance(4, 9, &mut rng);
    assert_eq!(inputs.len(), 9);
    assert_eq!(outputs.len(), 9);
    for row in &inputs {
        assert_eq!(row.len(), 4);
    }
    // The targets are the tree's own outputs: a perfect score.
    let instance = Instance { inputs, outputs };
    assert_eq!(f.current_score(&instance), 32 * 9);
}
