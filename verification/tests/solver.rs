use bitvector_diff::binary::BinaryOp;
use bitvector_diff::formula::{Node, NodeContent, Op};
use bitvector_diff::grad::{Deltas, Scores};
use bitvector_diff::solving::{
    aggregate, Benchmark, Enumerator, Greedy, Instance, SearchOutcome, Solver, SolverResult,
};
use rand::SeedableRng;

fn leaf(id: usize, input: usize) -> Node {
    Node { id, data: NodeContent::Input(input), outputs: None, grads: None }
}

fn binary(id: usize, op: BinaryOp, left: Node, right: Node) -> Node {
    Node {
        id,
        data: NodeContent::BinaryNode { op, left: Box::new(left), right: Box::new(right) },
        outputs: None,
        grads: None,
    }
}

#[test]
fn softmax_single_candidate() {
    let scores = Scores { values: vec![(1, Deltas::Input(vec![(2, 5)]))] };
    let mut rng = rand::rngs::StdRng::seed_from_u64(1);
    let mv = scores.softmax(20_000, 4, &mut rng);
    assert_eq!(mv, Some((1, Op::Input(2))));
}

#[test]
fn softmax_empty_pool_is_reported() {
    // The degenerate case is a distinguishable result, not a crash.
    let scores = Scores::new();
    let mut rng = rand::rngs::StdRng::seed_from_u64(1);
    assert_eq!(scores.softmax(20_000, 4, &mut rng), None);
}

#[test]
fn softmax_tolerates_negative_deltas() {
    let scores = Scores { values: vec![(1, Deltas::Input(vec![(1, -120), (2, -3), (3, 40)]))] };
    let mut rng = rand::rngs::StdRng::seed_from_u64(5);
    for _ in 0..20 {
        let mv = scores.softmax(2_000, 4, &mut rng);
        match mv {
            Some((1, Op::Input(_))) => {},
            other => panic!("drawn from the pool: {other:?}"),
        }
    }
}

#[test]
fn softmax_draws_from_the_whole_pool() {
    // Two candidates of equal delta carry equal weight: over enough
    // draws, both must come out.
    let scores = Scores { values: vec![(1, Deltas::Input(vec![(1, 0), (2, 0)]))] };
    let mut rng = rand::rngs::StdRng::seed_from_u64(14);
    let mut saw_one = false;
    let mut saw_two = false;
    for _ in 0..40 {
        match scores.softmax(20_000, 4, &mut rng) {
            Some((1, Op::Input(1))) => saw_one = true,
            Some((1, Op::Input(2))) => saw_two = true,
            other => panic!("drawn from the pool: {other:?}"),
        }
    }
    assert!(saw_one && saw_two);
}

#[test]
fn naif_no_move_is_reported() {
    // A single leaf over a single input has no alternative edit.
    let mut f = leaf(1, 0);
    let instance = Instance { inputs: vec![vec![7u32]], outputs: vec![0u32] };
    let greedy = Greedy::Naif(20_000);
    let mut rng = rand::rngs::StdRng::seed_from_u64(2);
    let r = greedy.naif(&instance, 1, &mut rng, 10, 20_000, &mut f);
    assert_eq!(r, SearchOutcome::NoMove);
}

#[test]
fn naif_detects_an_already_solved_tree() {
    let mut f = leaf(1, 0);
    let instance = Instance {
        inputs: vec![vec![3u32, 9], vec![5, 1]],
        outputs: vec![3u32, 5],
    };
    let greedy = Greedy::Naif(20_000);
    let mut rng = rand::rngs::StdRng::seed_from_u64(3);
    let r = greedy.naif(&instance, 2, &mut rng, 5, 20_000, &mut f);
    assert_eq!(r, SearchOutcome::Solved);
    // The already-solved tree is left untouched: no mutation was applied.
    assert!(matches!(f.data, NodeContent::Input(0)));
}

#[test]
fn naif_solves_one_wrong_leaf() {
    // x0 & x1 against targets drawn from x0 & x2: one rewiring away.
    let inputs: Vec<Vec<u32>> = (0..8u32)
        .map(|k| vec![k * 0x1111, k * 0x0101 + 7, !(k * 0x1111)])
        .collect();
    let outputs: Vec<u32> = inputs.iter().map(|row| row[0] & row[2]).collect();
    let instance = Instance { inputs, outputs };
    let mut f = binary(1, BinaryOp::And, leaf(2, 0), leaf(3, 1));
    let greedy = Greedy::Naif(50_000);
    let mut rng = rand::rngs::StdRng::seed_from_u64(4);
    let r = greedy.solve(&instance, &mut rng, &mut f, 200);
    assert_eq!(r, SearchOutcome::Solved);
    assert_eq!(f.current_score(&instance), 32 * 8);
}

#[test]
fn progressive_size_stays_in_range() {
    // Buckets of a 100-formula enumeration over sizes up to 20 never
    // leave [1, 20].
    let e = Enumerator::ProgressiveSize(20, 100, 100);
    let mut it = e.list_formula(3);
    let mut rng = rand::rngs::StdRng::seed_from_u64(6);
    let mut count = 0usize;
    let mut last_size = 0usize;
    while let Some((f, budget)) = it.next(&mut rng) {
        let size = f.size();
        assert!(1 <= size && size <= 20);
        assert!(size >= last_size, "sizes grow in buckets");
        last_size = size;
        assert_eq!(budget, 100);
        count += 1;
    }
    assert_eq!(count, 100);
    assert!(it.next(&mut rng).is_none());
}

#[test]
fn random_enumerator_counts_formulas() {
    let e = Enumerator::Random(3, 10, 4);
    let mut it = e.list_formula(2);
    let mut rng = rand::rngs::StdRng::seed_from_u64(8);
    let mut count = 0usize;
    while let Some((f, budget)) = it.next(&mut rng) {
        assert_eq!(f.size(), 3);
        assert_eq!(budget, 10);
        count += 1;
    }
    assert_eq!(count, 4);
    // A consumed enumeration yields nothing, however often it is asked.
    assert!(it.next(&mut rng).is_none());
    assert!(it.next(&mut rng).is_none());
}

#[test]
fn solver_finds_constant_zero_target() {
    // A degenerate instance whose target is always zero is solved by a
    // tiny circuit such as an input conjoined with its own complement.
    let mut rng = rand::rngs::StdRng::seed_from_u64(9);
    let inputs: Vec<Vec<u32>> = (0..16u32).map(|k| vec![k.wrapping_mul(0x9e37_79b9)]).collect();
    let outputs = vec![0u32; 16];
    let instance = Instance { inputs, outputs };
    let solver = Solver {
        enumerator: Enumerator::Random(3, 50, 30),
        greedy: Greedy::Naif(20_000),
    };
    let r = instance.solve(solver, &mut rng);
    let mut f = r.result.expect("a three-node circuit can reach an all-zero target");
    assert!(100 * f.current_score(&instance) >= 99 * 32 * 16);
}

#[test]
fn solver_reports_failure_without_panicking() {
    // One attempt of one iteration on a hard instance: an empty result,
    // not an error.
    let mut rng = rand::rngs::StdRng::seed_from_u64(10);
    let instance = Instance {
        inputs: (0..8u32).map(|k| vec![k, k + 1]).collect(),
        outputs: (0..8u32).map(|k| k.wrapping_mul(0x1234_5677) ^ 0xdead_beef).collect(),
    };
    let solver = Solver {
        enumerator: Enumerator::Random(2, 1, 1),
        greedy: Greedy::Naif(20_000),
    };
    let r = instance.solve(solver, &mut rng);
    assert!(r.result.is_none());
}

#[test]
fn progressif_anneals_to_a_solution() {
    let mut rng = rand::rngs::StdRng::seed_from_u64(12);
    let inputs: Vec<Vec<u32>> = (0..8u32).map(|k| vec![k * 3, k ^ 0xff]).collect();
    let outputs: Vec<u32> = inputs.iter().map(|row| row[0] | row[1]).collect();
    let instance = Instance { inputs, outputs };
    let solver = Solver {
        enumerator: Enumerator::Random(3, 400, 20),
        greedy: Greedy::Progressif(1_000, 50_000),
    };
    let r = instance.solve(solver, &mut rng);
    let mut f = r.result.expect("a three-node skeleton can express x0 | x1");
    assert!(100 * f.current_score(&instance) >= 99 * 32 * 8);
}

#[test]
fn end_to_end_recovers_hidden_circuit() {
    // Arity 5, 32 examples, hidden circuit of 10 nodes; constant
    // temperature 20 and a 1000-iteration budget per attempt.
    let mut rng = rand::rngs::StdRng::seed_from_u64(1001);
    let instance = Instance::random((5, 32, 10), &mut rng);
    let solver = Solver {
        enumerator: Enumerator::Random(10, 1000, 10),
        greedy: Greedy::Naif(20_000),
    };
    let r = instance.solve(solver, &mut rng);
    let mut f = r.result.expect("the hidden circuit's instance is solvable");
    assert!(100 * f.current_score(&instance) >= 99 * 32 * 32);
}

#[test]
fn benchmark_solves_each_instance() {
    let mut rng = rand::rngs::StdRng::seed_from_u64(13);
    let b = Benchmark::new((3, 8, 3), &mut rng, 2);
    assert_eq!(b.instances.len(), 2);
    let solver = Solver {
        enumerator: Enumerator::Random(3, 100, 20),
        greedy: Greedy::Naif(20_000),
    };
    let rs = b.solve(solver, &mut rng);
    assert_eq!(rs.len(), 2);
    for (i, r) in rs.iter().enumerate() {
        if let Some(f) = &r.result {
            let mut g = Node {
                id: f.id,
                data: clone_gates(&f.data),
                outputs: None,
                grads: None,
            };
            let n = b.instances[i].outputs.len() as u64;
            assert!(100 * g.current_score(&b.instances[i]) >= 99 * 32 * n);
        }
    }
}

fn clone_gates(c: &NodeContent) -> NodeContent {
    match c {
        NodeContent::Input(i) => NodeContent::Input(*i),
        NodeContent::UnaryNode { op, child } => NodeContent::UnaryNode {
            op: *op,
            child: Box::new(Node {
                id: child.id,
                data: clone_gates(&child.data),
                outputs: None,
                grads: None,
            }),
        },
        NodeContent::BinaryNode { op, left, right } => NodeContent::BinaryNode {
            op: *op,
            left: Box::new(Node {
                id: left.id,
                data: clone_gates(&left.data),
                outputs: None,
                grads: None,
            }),
            right: Box::new(Node {
                id: right.id,
                data: clone_gates(&right.data),
                outputs: None,
                grads: None,
            }),
        },
    }
}

#[test]
fn aggregate_counts_sizes_and_max_time() {
    let results = vec![
        SolverResult { result: Some(leaf(1, 0)), time: 7 },
        SolverResult { result: None, time: 40 },
        SolverResult {
            result: Some(binary(1, BinaryOp::Xor, leaf(2, 0), leaf(3, 1))),
            time: 12,
        },
    ];
    let (successes, sum_size, max_time) = aggregate(&results);
    assert_eq!(successes, 2);
    assert_eq!(sum_size, 1 + 3);
    assert_eq!(max_time, 40);

    let empty: Vec<SolverResult> = Vec::new();
    assert_eq!(aggregate(&empty), (0, 0, 0));
}
