//! The circuit tree: recursive nodes with memoized forward outputs and
//! memoized backward sensitivities, path-addressed mutation, random
//! generation, and the per-node delta tables.

use vstd::prelude::*;

use crate::binary::{binary_at, binary_family_at, binary_index, binary_index_of, BinaryOp};
use crate::bits::{lemma_pc_le_32, lemma_pc_not, matching_bits, popcount};
use crate::grad::{psi, psi_n, root_grad, Deltas, Grad, Scores};
use crate::rng::{rng_below, rng_coin, rng_word};
use crate::solving::{Instance, MAX_EXAMPLES};
use crate::unary::{unary_at, unary_family_at, unary_index, unary_index_of, UnaryOp};

verus! {

/// What a node holds: a reference to one of the problem's input
/// words, a unary gate over one subtree, or a binary gate over two.
#[derive(Debug)]
pub enum NodeContent {
    Input(usize),
    UnaryNode { op: UnaryOp, child: Box<Node> },
    BinaryNode { op: BinaryOp, left: Box<Node>, right: Box<Node> },
}

/// One node of a circuit tree.
///
/// `id` encodes the path from the root: the root has id 1, and the left
/// (or sole) child of a node with id `n` has id `2n`, the right child
/// `2n + 1`. `outputs` memoizes the forward value of this subexpression,
/// one word per example; `grads` memoizes the sensitivity received by the
/// last backward pass, one pair per example.
#[derive(Debug)]
pub struct Node {
    pub id: usize,
    pub data: NodeContent,
    pub outputs: Option<Vec<u32>>,
    pub grads: Option<Vec<Grad>>,
}

/// A replacement gate for one node, matching the node's kind.
#[derive(Debug, Clone, Copy, PartialEq, Eq, Structural)]
pub enum Op {
    Input(usize),
    Unary(UnaryOp),
    Binary(BinaryOp),
}

/// One step of a root-to-node path.
#[derive(Debug, Clone, Copy, PartialEq, Eq, Structural)]
pub enum Move {
    Left,
    Right,
}

// ---------------------------------------------------------------------
// The mathematical model: evaluation, well-formedness, cache validity.
// ---------------------------------------------------------------------

/// Value of the subexpression on one example row.
pub open spec fn evalc(c: NodeContent, row: Vec<u32>) -> u32
    decreases c,
{
    match c {
        NodeContent::Input(i) => row@[i as int],
        NodeContent::UnaryNode { op, child } => op.apply_spec(evalc(child.data, row)),
        NodeContent::BinaryNode { op, left, right } => op.apply_spec(
            evalc(left.data, row),
            evalc(right.data, row),
        ),
    }
}

/// Value of the node's subexpression on one example row.
pub open spec fn eval(n: Node, row: Vec<u32>) -> u32 {
    evalc(n.data, row)
}

/// Number of nodes of the subtree.
pub open spec fn size_c(c: NodeContent) -> nat
    decreases c,
{
    match c {
        NodeContent::Input(_) => 1,
        NodeContent::UnaryNode { child, .. } => 1 + size_c(child.data),
        NodeContent::BinaryNode { left, right, .. } => 1 + size_c(left.data) + size_c(
            right.data,
        ),
    }
}

/// Number of nodes of the tree.
pub open spec fn size_spec(n: Node) -> nat {
    size_c(n.data)
}

/// Every input reference picks one of `n_inputs` words and every shift
/// distance stays in the family.
pub open spec fn wf_shape_c(c: NodeContent, n_inputs: nat) -> bool
    decreases c,
{
    match c {
        NodeContent::Input(i) => (i as nat) < n_inputs,
        NodeContent::UnaryNode { op, child } => op.wf() && wf_shape_c(child.data, n_inputs),
        NodeContent::BinaryNode { left, right, .. } => wf_shape_c(left.data, n_inputs)
            && wf_shape_c(right.data, n_inputs),
    }
}

pub open spec fn wf_shape(n: Node, n_inputs: nat) -> bool {
    wf_shape_c(n.data, n_inputs)
}

/// Every input reference is in bounds for every row of `rows`.
pub open spec fn compat_c(c: NodeContent, rows: Seq<Vec<u32>>) -> bool
    decreases c,
{
    match c {
        NodeContent::Input(i) => forall|k: int| 0 <= k < rows.len() ==> (i as int) < rows[k]@.len(),
        NodeContent::UnaryNode { child, .. } => compat_c(child.data, rows),
        NodeContent::BinaryNode { left, right, .. } => compat_c(left.data, rows) && compat_c(
            right.data,
            rows,
        ),
    }
}

pub open spec fn compat(n: Node, rows: Seq<Vec<u32>>) -> bool {
    compat_c(n.data, rows)
}

/// The ids of the subtree rooted at `n` follow the path scheme, starting
/// from `id` at `n` itself.
pub open spec fn wf_ids(n: Node, id: nat) -> bool
    decreases n,
{
    n.id == id && match n.data {
        NodeContent::Input(_) => true,
        NodeContent::UnaryNode { child, .. } => wf_ids(*child, 2 * id),
        NodeContent::BinaryNode { left, right, .. } => wf_ids(*left, 2 * id) && wf_ids(
            *right,
            2 * id + 1,
        ),
    }
}

/// Every memoized output agrees with the mathematical evaluation on
/// `rows`: no cache is stale.
pub open spec fn out_ok(n: Node, rows: Seq<Vec<u32>>) -> bool
    decreases n,
{
    (match n.outputs {
        Some(v) => v@.len() == rows.len() && forall|k: int|
            0 <= k < rows.len() ==> v@[k] == eval(n, rows[k]),
        None => true,
    }) && cont_out_ok(n.data, rows)
}

pub open spec fn cont_out_ok(c: NodeContent, rows: Seq<Vec<u32>>) -> bool
    decreases c,
{
    match c {
        NodeContent::Input(_) => true,
        NodeContent::UnaryNode { child, .. } => out_ok(*child, rows),
        NodeContent::BinaryNode { left, right, .. } => out_ok(*left, rows) && out_ok(*right, rows),
    }
}

/// Every node of the subtree holds a memoized output of length `len`.
pub open spec fn out_full(n: Node, len: nat) -> bool
    decreases n,
{
    (match n.outputs {
        Some(v) => v@.len() == len,
        None => false,
    }) && cont_out_full(n.data, len)
}

pub open spec fn cont_out_full(c: NodeContent, len: nat) -> bool
    decreases c,
{
    match c {
        NodeContent::Input(_) => true,
        NodeContent::UnaryNode { child, .. } => out_full(*child, len),
        NodeContent::BinaryNode { left, right, .. } => out_full(*left, len) && out_full(
            *right,
            len,
        ),
    }
}

/// A node with a memoized output sits on top of a fully memoized subtree.
/// Forward passes establish this and mutation preserves it, because a
/// mutation clears the caches of the mutated node and all its ancestors.
pub open spec fn out_closed(n: Node) -> bool
    decreases n,
{
    (match n.outputs {
        Some(v) => cont_out_full(n.data, v@.len()),
        None => true,
    }) && cont_out_closed(n.data)
}

pub open spec fn cont_out_closed(c: NodeContent) -> bool
    decreases c,
{
    match c {
        NodeContent::Input(_) => true,
        NodeContent::UnaryNode { child, .. } => out_closed(*child),
        NodeContent::BinaryNode { left, right, .. } => out_closed(*left) && out_closed(*right),
    }
}

/// No node of the subtree holds a memoized sensitivity.
pub open spec fn grads_none(n: Node) -> bool
    decreases n,
{
    n.grads is None && cont_grads_none(n.data)
}

pub open spec fn cont_grads_none(c: NodeContent) -> bool
    decreases c,
{
    match c {
        NodeContent::Input(_) => true,
        NodeContent::UnaryNode { child, .. } => grads_none(*child),
        NodeContent::BinaryNode { left, right, .. } => grads_none(*left) && grads_none(*right),
    }
}

/// The memoized sensitivities stored at `n`.
pub open spec fn sg(n: Node) -> Seq<Grad> {
    match n.grads {
        Some(v) => v@,
        None => Seq::empty(),
    }
}

/// The whole subtree holds memoized sensitivities, and each child's
/// sensitivity is the adjoint of its parent's, taken through the parent's
/// gate and, for a binary gate, the sibling's forward value.
pub open spec fn grads_full(n: Node, rows: Seq<Vec<u32>>) -> bool
    decreases n,
{
    &&& n.grads is Some
    &&& sg(n).len() == rows.len()
    &&& cont_grads_full(n.data, rows, sg(n))
}

/// The children of `c` hold memoized sensitivities that are the adjoints
/// of `gs` through `c`'s gate.
pub open spec fn cont_grads_full(c: NodeContent, rows: Seq<Vec<u32>>, gs: Seq<Grad>) -> bool
    decreases c,
{
    match c {
        NodeContent::Input(_) => true,
        NodeContent::UnaryNode { op, child } => grads_full(*child, rows) && sg(*child) == Seq::new(
            rows.len(),
            |k: int| op.grad_spec(gs[k]),
        ),
        NodeContent::BinaryNode { op, left, right } => grads_full(*left, rows) && grads_full(
            *right,
            rows,
        ) && sg(*left) == Seq::new(rows.len(), |k: int| op.grad_x_spec(gs[k], eval(*right, rows[k])))
            && sg(*right) == Seq::new(
            rows.len(),
            |k: int| op.grad_y_spec(gs[k], eval(*left, rows[k])),
        ),
    }
}

/// No node of the tree holds any memoized value, as after generation.
pub open spec fn fresh(n: Node) -> bool
    decreases n,
{
    n.outputs is None && n.grads is None && match n.data {
        NodeContent::Input(_) => true,
        NodeContent::UnaryNode { child, .. } => fresh(*child),
        NodeContent::BinaryNode { left, right, .. } => fresh(*left) && fresh(*right),
    }
}

/// A tree without memoized values has no stale cache and no sensitivity.
pub proof fn lemma_fresh_facts(n: Node, rows: Seq<Vec<u32>>)
    requires
        fresh(n),
    ensures
        out_ok(n, rows),
        out_closed(n),
        grads_none(n),
    decreases n,
{
    match n.data {
        NodeContent::Input(_) => {},
        NodeContent::UnaryNode { child, .. } => {
            lemma_fresh_facts(*child, rows);
        },
        NodeContent::BinaryNode { left, right, .. } => {
            lemma_fresh_facts(*left, rows);
            lemma_fresh_facts(*right, rows);
        },
    }
}

/// A tree that is well formed for `n_inputs` inputs fits any example set
/// whose rows all have width `n_inputs`.
pub proof fn lemma_wf_shape_compat(n: Node, rows: Seq<Vec<u32>>, n_inputs: nat)
    requires
        wf_shape(n, n_inputs),
        forall|k: int| 0 <= k < rows.len() ==> (#[trigger] rows[k])@.len() == n_inputs,
    ensures
        compat(n, rows),
    decreases n,
{
    match n.data {
        NodeContent::Input(_) => {},
        NodeContent::UnaryNode { child, .. } => {
            lemma_wf_shape_compat(*child, rows, n_inputs);
        },
        NodeContent::BinaryNode { left, right, .. } => {
            lemma_wf_shape_compat(*left, rows, n_inputs);
            lemma_wf_shape_compat(*right, rows, n_inputs);
        },
    }
}

// ---------------------------------------------------------------------
// The quality of a circuit against a problem's targets.
// ---------------------------------------------------------------------

/// Score numerator over the first `m` examples: for each example, the
/// number of bits where the circuit's output matches the target word.
pub open spec fn score_upto(n: Node, rows: Seq<Vec<u32>>, targets: Seq<u32>, m: int) -> int
    decreases m,
{
    if m <= 0 {
        0
    } else {
        score_upto(n, rows, targets, m - 1) + matching_bits(eval(n, rows[m - 1]), targets[m - 1])
    }
}

/// Score numerator of the circuit on a whole problem. The quality of the
/// circuit is this value over `32 * example_count`, a fraction in [0, 1].
pub open spec fn score_num(n: Node, rows: Seq<Vec<u32>>, targets: Seq<u32>) -> int {
    score_upto(n, rows, targets, rows.len() as int)
}

/// The success test of the solver: quality at least 99/100.
pub open spec fn threshold_met(n: Node, rows: Seq<Vec<u32>>, targets: Seq<u32>) -> bool {
    100 * score_num(n, rows, targets) >= 99 * 32 * rows.len()
}

/// The score numerator over `m` examples lies between 0 and `32 m`: the
/// quality is a fraction in [0, 1].
pub proof fn lemma_score_bounds(n: Node, rows: Seq<Vec<u32>>, targets: Seq<u32>, m: int)
    requires
        m >= 0,
    ensures
        0 <= score_upto(n, rows, targets, m),
        score_upto(n, rows, targets, m) <= 32 * m,
    decreases m,
{
    if m > 0 {
        lemma_score_bounds(n, rows, targets, m - 1);
        lemma_pc_le_32(eval(n, rows[m - 1]) ^ targets[m - 1]);
    }
}

/// Law: after a forward pass and a backward pass from the root
/// sensitivity — influence all ones, target the example's target word —
/// the root's quality numerator, `psi` of its memoized output under its
/// memoized sensitivity, equals for every example the number of bits
/// where the circuit's output matches the target: exactly the example's
/// summand of the score numerator. Divided by 32 it is the fraction of
/// matching bits.
pub proof fn lemma_root_psi(f: Node, rows: Seq<Vec<u32>>, targets: Seq<u32>, k: int)
    requires
        out_ok(f, rows),
        out_full(f, rows.len()),
        f.grads is Some,
        sg(f) == root_grads(targets),
        targets.len() == rows.len(),
        0 <= k < rows.len(),
    ensures
        psi_n(f.outputs.unwrap()@[k], sg(f)[k]) == matching_bits(eval(f, rows[k]), targets[k]),
        score_upto(f, rows, targets, k + 1) - score_upto(f, rows, targets, k) == psi_n(
            f.outputs.unwrap()@[k],
            sg(f)[k],
        ),
{
    crate::grad::lemma_psi_full(eval(f, rows[k]), targets[k]);
}

/// The root sensitivities of a problem, one pair per example.
pub open spec fn root_grads(targets: Seq<u32>) -> Seq<Grad> {
    Seq::new(targets.len(), |k: int| root_grad(targets[k]))
}

/// The delta a replacement would earn at the root of the tree `a`.
pub open spec fn root_delta(a: Node, op: Op, rows: Seq<Vec<u32>>, gs: Seq<Grad>, m: int) -> int {
    match (a.data, op) {
        (NodeContent::Input(_), Op::Input(j)) => delta_input(a.data, rows, gs, j as int, m),
        (NodeContent::UnaryNode { child, .. }, Op::Unary(u)) => delta_unary(
            a.data,
            *child,
            u,
            rows,
            gs,
            m,
        ),
        (NodeContent::BinaryNode { left, right, .. }, Op::Binary(x)) => delta_binary(
            a.data,
            *left,
            *right,
            x,
            rows,
            gs,
            m,
        ),
        _ => 0,
    }
}

/// Law: a delta at the root is exact. Replacing the root's operator
/// changes the score numerator by precisely the delta that the
/// sensitivity engine computed for that candidate from the root
/// sensitivities — the engine's estimate is the truth where the
/// sensitivity is not an approximation.
pub proof fn lemma_root_delta_exact(
    a: Node,
    b: Node,
    op: Op,
    rows: Seq<Vec<u32>>,
    targets: Seq<u32>,
    m: int,
)
    requires
        gates_replaced(a, b, Seq::empty(), op),
        0 <= m <= rows.len(),
        targets.len() == rows.len(),
    ensures
        score_upto(b, rows, targets, m) - score_upto(a, rows, targets, m) == root_delta(
            a,
            op,
            rows,
            root_grads(targets),
            m,
        ),
    decreases m,
{
    let gs = root_grads(targets);
    if m > 0 {
        lemma_root_delta_exact(a, b, op, rows, targets, m - 1);
        let row = rows[m - 1];
        let t = targets[m - 1];
        crate::grad::lemma_psi_full(eval(a, row), t);
        crate::grad::lemma_psi_full(eval(b, row), t);
        match (a.data, b.data) {
            (
                NodeContent::UnaryNode { child: c1, .. },
                NodeContent::UnaryNode { child: c2, .. },
            ) => {
                lemma_same_gates_eval(*c1, *c2, row);
            },
            (
                NodeContent::BinaryNode { left: l1, right: r1, .. },
                NodeContent::BinaryNode { left: l2, right: r2, .. },
            ) => {
                lemma_same_gates_eval(*l1, *l2, row);
                lemma_same_gates_eval(*r1, *r2, row);
            },
            _ => {},
        }
    }
}

/// The example pairs of a problem: each input row next to its target.
pub open spec fn example_pairs(rows: Seq<Vec<u32>>, targets: Seq<u32>) -> Seq<(Vec<u32>, u32)> {
    Seq::new(rows.len(), |k: int| (rows[k], targets[k]))
}

/// A fold of an additive function shifts with its base.
proof fn lemma_fold_offset(
    n: Node,
    pairs: Seq<(Vec<u32>, u32)>,
    f: spec_fn((Vec<u32>, u32), int) -> int,
    b: int,
)
    requires
        forall|p: (Vec<u32>, u32), acc: int| #[trigger] f(p, acc) == acc + matching_bits(
            eval(n, p.0),
            p.1,
        ),
    ensures
        pairs.fold_right(f, b) == pairs.fold_right(f, 0) + b,
    decreases pairs.len(),
{
    if pairs.len() > 0 {
        lemma_fold_offset(n, pairs.drop_last(), f, f(pairs.last(), b));
        lemma_fold_offset(n, pairs.drop_last(), f, f(pairs.last(), 0));
    }
}

/// The score numerator is the fold of the per-pair summand over the
/// example pairs.
proof fn lemma_score_is_pair_fold(
    n: Node,
    rows: Seq<Vec<u32>>,
    targets: Seq<u32>,
    m: int,
    f: spec_fn((Vec<u32>, u32), int) -> int,
)
    requires
        forall|p: (Vec<u32>, u32), acc: int| #[trigger] f(p, acc) == acc + matching_bits(
            eval(n, p.0),
            p.1,
        ),
        targets.len() == rows.len(),
        0 <= m <= rows.len(),
    ensures
        score_upto(n, rows, targets, m) == example_pairs(rows, targets).take(m).fold_right(f, 0),
    decreases m,
{
    let pairs = example_pairs(rows, targets);
    if m > 0 {
        lemma_score_is_pair_fold(n, rows, targets, m - 1, f);
        assert(pairs.take(m).drop_last() =~= pairs.take(m - 1));
        lemma_fold_offset(n, pairs.take(m - 1), f, f(pairs.take(m).last(), 0));
    }
}

/// Law: the score of a circuit does not depend on the order of the
/// examples, as long as each input row keeps its own target: any two
/// problems whose (row, target) pairs form the same multiset earn the
/// same score numerator.
pub proof fn lemma_score_reorder(
    n: Node,
    rows1: Seq<Vec<u32>>,
    targets1: Seq<u32>,
    rows2: Seq<Vec<u32>>,
    targets2: Seq<u32>,
)
    requires
        targets1.len() == rows1.len(),
        targets2.len() == rows2.len(),
        example_pairs(rows2, targets2).to_multiset() == example_pairs(rows1, targets1).to_multiset(),
    ensures
        score_num(n, rows2, targets2) == score_num(n, rows1, targets1),
{
    let pairs1 = example_pairs(rows1, targets1);
    let pairs2 = example_pairs(rows2, targets2);
    let f = |p: (Vec<u32>, u32), acc: int| acc + matching_bits(eval(n, p.0), p.1);
    assert(vstd::seq_lib::commutative_foldr(f)) by {
        assert forall|x: (Vec<u32>, u32), y: (Vec<u32>, u32), v: int| #[trigger] f(x, f(y, v)) == f(
            y,
            f(x, v),
        ) by {}
    }
    vstd::seq_lib::lemma_fold_right_permutation(pairs1, pairs2, f, 0);
    lemma_score_is_pair_fold(n, rows1, targets1, rows1.len() as int, f);
    lemma_score_is_pair_fold(n, rows2, targets2, rows2.len() as int, f);
    assert(pairs1.take(rows1.len() as int) =~= pairs1);
    assert(pairs2.take(rows2.len() as int) =~= pairs2);
}

/// Trees with the same gates earn the same score.
pub proof fn lemma_score_same_gates(
    a: Node,
    b: Node,
    rows: Seq<Vec<u32>>,
    targets: Seq<u32>,
    m: int,
)
    requires
        same_gates(a, b),
    ensures
        score_upto(b, rows, targets, m) == score_upto(a, rows, targets, m),
    decreases m,
{
    if m > 0 {
        lemma_score_same_gates(a, b, rows, targets, m - 1);
        lemma_same_gates_eval(a, b, rows[m - 1]);
    }
}

// ---------------------------------------------------------------------
// Frame relations: which parts of a tree an operation may touch.
// ---------------------------------------------------------------------

/// `b` has the same ids, gates and memoized outputs as `a`; only the
/// memoized sensitivities may differ.
pub open spec fn eq_but_grads(a: Node, b: Node) -> bool
    decreases a,
{
    b.id == a.id && b.outputs == a.outputs && match (a.data, b.data) {
        (NodeContent::Input(i), NodeContent::Input(j)) => j == i,
        (
            NodeContent::UnaryNode { op: o1, child: c1 },
            NodeContent::UnaryNode { op: o2, child: c2 },
        ) => o2 == o1 && eq_but_grads(*c1, *c2),
        (
            NodeContent::BinaryNode { op: o1, left: l1, right: r1 },
            NodeContent::BinaryNode { op: o2, left: l2, right: r2 },
        ) => o2 == o1 && eq_but_grads(*l1, *l2) && eq_but_grads(*r1, *r2),
        _ => false,
    }
}

/// `b` has the same ids, gates and memoized sensitivities as `a`; only
/// the memoized outputs may differ.
pub open spec fn eq_but_outs(a: Node, b: Node) -> bool
    decreases a,
{
    b.id == a.id && b.grads == a.grads && match (a.data, b.data) {
        (NodeContent::Input(i), NodeContent::Input(j)) => j == i,
        (
            NodeContent::UnaryNode { op: o1, child: c1 },
            NodeContent::UnaryNode { op: o2, child: c2 },
        ) => o2 == o1 && eq_but_outs(*c1, *c2),
        (
            NodeContent::BinaryNode { op: o1, left: l1, right: r1 },
            NodeContent::BinaryNode { op: o2, left: l2, right: r2 },
        ) => o2 == o1 && eq_but_outs(*l1, *l2) && eq_but_outs(*r1, *r2),
        _ => false,
    }
}

/// `b` has the same ids and gates as `a`.
pub open spec fn same_gates(a: Node, b: Node) -> bool
    decreases a,
{
    b.id == a.id && match (a.data, b.data) {
        (NodeContent::Input(i), NodeContent::Input(j)) => j == i,
        (
            NodeContent::UnaryNode { op: o1, child: c1 },
            NodeContent::UnaryNode { op: o2, child: c2 },
        ) => o2 == o1 && same_gates(*c1, *c2),
        (
            NodeContent::BinaryNode { op: o1, left: l1, right: r1 },
            NodeContent::BinaryNode { op: o2, left: l2, right: r2 },
        ) => o2 == o1 && same_gates(*l1, *l2) && same_gates(*r1, *r2),
        _ => false,
    }
}

/// Trees with the same gates evaluate alike on any row.
pub proof fn lemma_same_gates_eval(a: Node, b: Node, row: Vec<u32>)
    requires
        same_gates(a, b),
    ensures
        eval(b, row) == eval(a, row),
    decreases a,
{
    match (a.data, b.data) {
        (NodeContent::UnaryNode { child: c1, .. }, NodeContent::UnaryNode { child: c2, .. }) => {
            lemma_same_gates_eval(*c1, *c2, row);
        },
        (
            NodeContent::BinaryNode { left: l1, right: r1, .. },
            NodeContent::BinaryNode { left: l2, right: r2, .. },
        ) => {
            lemma_same_gates_eval(*l1, *l2, row);
            lemma_same_gates_eval(*r1, *r2, row);
        },
        _ => {},
    }
}

/// Trees with the same gates have the same size, shape and id facts.
pub proof fn lemma_same_gates_struct(a: Node, b: Node, n_inputs: nat, id: nat, rows: Seq<Vec<u32>>)
    requires
        same_gates(a, b),
    ensures
        size_spec(b) == size_spec(a),
        wf_shape(b, n_inputs) <==> wf_shape(a, n_inputs),
        wf_ids(b, id) <==> wf_ids(a, id),
        compat(b, rows) <==> compat(a, rows),
    decreases a,
{
    match (a.data, b.data) {
        (NodeContent::UnaryNode { child: c1, .. }, NodeContent::UnaryNode { child: c2, .. }) => {
            lemma_same_gates_struct(*c1, *c2, n_inputs, 2 * id, rows);
        },
        (
            NodeContent::BinaryNode { left: l1, right: r1, .. },
            NodeContent::BinaryNode { left: l2, right: r2, .. },
        ) => {
            lemma_same_gates_struct(*l1, *l2, n_inputs, 2 * id, rows);
            lemma_same_gates_struct(*r1, *r2, n_inputs, 2 * id + 1, rows);
        },
        _ => {},
    }
}

/// Two trees that differ only in memoized sensitivities share the gates,
/// and every output-cache fact transfers between them.
pub proof fn lemma_eq_but_grads_out(a: Node, b: Node, rows: Seq<Vec<u32>>, len: nat)
    requires
        eq_but_grads(a, b),
    ensures
        same_gates(a, b),
        out_ok(b, rows) <==> out_ok(a, rows),
        out_full(b, len) <==> out_full(a, len),
        out_closed(b) <==> out_closed(a),
    decreases a,
{
    match (a.data, b.data) {
        (NodeContent::UnaryNode { child: c1, .. }, NodeContent::UnaryNode { child: c2, .. }) => {
            lemma_eq_but_grads_out(*c1, *c2, rows, len);
            if b.outputs is Some {
                lemma_eq_but_grads_out(*c1, *c2, rows, b.outputs.unwrap()@.len());
            }
        },
        (
            NodeContent::BinaryNode { left: l1, right: r1, .. },
            NodeContent::BinaryNode { left: l2, right: r2, .. },
        ) => {
            lemma_eq_but_grads_out(*l1, *l2, rows, len);
            lemma_eq_but_grads_out(*r1, *r2, rows, len);
            if b.outputs is Some {
                lemma_eq_but_grads_out(*l1, *l2, rows, b.outputs.unwrap()@.len());
                lemma_eq_but_grads_out(*r1, *r2, rows, b.outputs.unwrap()@.len());
            }
        },
        _ => {},
    }
    assert forall|k: int| 0 <= k < rows.len() implies eval(b, rows[k]) == eval(a, rows[k]) by {
        lemma_same_gates_eval(a, b, rows[k]);
    }
}

/// Two trees that differ only in memoized outputs share the gates, store
/// the same sensitivities, and every sensitivity-cache fact transfers.
pub proof fn lemma_eq_but_outs_grads(a: Node, b: Node, rows: Seq<Vec<u32>>)
    requires
        eq_but_outs(a, b),
    ensures
        same_gates(a, b),
        sg(b) == sg(a),
        b.grads is Some <==> a.grads is Some,
        grads_none(b) <==> grads_none(a),
        grads_full(b, rows) <==> grads_full(a, rows),
    decreases a,
{
    match (a.data, b.data) {
        (NodeContent::Input(_), NodeContent::Input(_)) => {},
        (
            NodeContent::UnaryNode { op, child: c1 },
            NodeContent::UnaryNode { child: c2, .. },
        ) => {
            lemma_eq_but_outs_grads(*c1, *c2, rows);
        },
        (
            NodeContent::BinaryNode { op, left: l1, right: r1 },
            NodeContent::BinaryNode { left: l2, right: r2, .. },
        ) => {
            lemma_eq_but_outs_grads(*l1, *l2, rows);
            lemma_eq_but_outs_grads(*r1, *r2, rows);
            if grads_full(a, rows) || grads_full(b, rows) {
                assert forall|k: int| 0 <= k < rows.len() implies eval(*r2, rows[k]) == eval(
                    *r1,
                    rows[k],
                ) && eval(*l2, rows[k]) == eval(*l1, rows[k]) by {
                    lemma_same_gates_eval(*r1, *r2, rows[k]);
                    lemma_same_gates_eval(*l1, *l2, rows[k]);
                }
                assert(Seq::new(rows.len(), |k: int| op.grad_x_spec(sg(b)[k], eval(*r2, rows[k])))
                    =~= Seq::new(
                    rows.len(),
                    |k: int| op.grad_x_spec(sg(a)[k], eval(*r1, rows[k])),
                ));
                assert(Seq::new(rows.len(), |k: int| op.grad_y_spec(sg(b)[k], eval(*l2, rows[k])))
                    =~= Seq::new(
                    rows.len(),
                    |k: int| op.grad_y_spec(sg(a)[k], eval(*l1, rows[k])),
                ));
            }
        },
        _ => {},
    }
}
/// `b` stores the same memoized outputs as `a`, node for node.
pub open spec fn same_outs(a: Node, b: Node) -> bool
    decreases a,
{
    b.outputs == a.outputs && match (a.data, b.data) {
        (NodeContent::Input(_), NodeContent::Input(_)) => true,
        (
            NodeContent::UnaryNode { child: c1, .. },
            NodeContent::UnaryNode { child: c2, .. },
        ) => same_outs(*c1, *c2),
        (
            NodeContent::BinaryNode { left: l1, right: r1, .. },
            NodeContent::BinaryNode { left: l2, right: r2, .. },
        ) => same_outs(*l1, *l2) && same_outs(*r1, *r2),
        _ => false,
    }
}

/// The memoized outputs of the node at path `p` and of every node on the
/// way there — its ancestors — are dropped in `b`; every node off the
/// path keeps its memoized output from `a`, untouched.
pub open spec fn outs_replaced(a: Node, b: Node, p: Seq<Move>) -> bool
    decreases p.len(),
{
    b.outputs is None && if p.len() == 0 {
        match (a.data, b.data) {
            (NodeContent::Input(_), NodeContent::Input(_)) => true,
            (
                NodeContent::UnaryNode { child: c1, .. },
                NodeContent::UnaryNode { child: c2, .. },
            ) => same_outs(*c1, *c2),
            (
                NodeContent::BinaryNode { left: l1, right: r1, .. },
                NodeContent::BinaryNode { left: l2, right: r2, .. },
            ) => same_outs(*l1, *l2) && same_outs(*r1, *r2),
            _ => false,
        }
    } else {
        match (a.data, b.data) {
            (
                NodeContent::UnaryNode { child: c1, .. },
                NodeContent::UnaryNode { child: c2, .. },
            ) => p[0] == Move::Left && outs_replaced(*c1, *c2, p.skip(1)),
            (
                NodeContent::BinaryNode { left: l1, right: r1, .. },
                NodeContent::BinaryNode { left: l2, right: r2, .. },
            ) => if p[0] == Move::Left {
                outs_replaced(*l1, *l2, p.skip(1)) && same_outs(*r1, *r2)
            } else {
                same_outs(*l1, *l2) && outs_replaced(*r1, *r2, p.skip(1))
            },
            _ => false,
        }
    }
}

/// Every tree relates to itself under each frame relation.
pub proof fn lemma_frames_refl(a: Node)
    ensures
        same_gates(a, a),
        eq_but_outs(a, a),
        eq_but_grads(a, a),
        same_outs(a, a),
    decreases a,
{
    match a.data {
        NodeContent::Input(_) => {},
        NodeContent::UnaryNode { child, .. } => {
            lemma_frames_refl(*child);
        },
        NodeContent::BinaryNode { left, right, .. } => {
            lemma_frames_refl(*left);
            lemma_frames_refl(*right);
        },
    }
}

/// A step that keeps the memoized outputs keeps `same_outs`.
proof fn lemma_same_outs_compose(a: Node, b: Node, c: Node)
    requires
        same_outs(a, b),
        eq_but_grads(b, c),
    ensures
        same_outs(a, c),
    decreases a,
{
    match (a.data, b.data, c.data) {
        (
            NodeContent::UnaryNode { child: c1, .. },
            NodeContent::UnaryNode { child: c2, .. },
            NodeContent::UnaryNode { child: c3, .. },
        ) => {
            lemma_same_outs_compose(*c1, *c2, *c3);
        },
        (
            NodeContent::BinaryNode { left: l1, right: r1, .. },
            NodeContent::BinaryNode { left: l2, right: r2, .. },
            NodeContent::BinaryNode { left: l3, right: r3, .. },
        ) => {
            lemma_same_outs_compose(*l1, *l2, *l3);
            lemma_same_outs_compose(*r1, *r2, *r3);
        },
        _ => {},
    }
}

/// A path-clearing step followed by a step that keeps the memoized
/// outputs is still the same path-clearing step.
proof fn lemma_outs_replaced_compose(a: Node, b: Node, c: Node, p: Seq<Move>)
    requires
        outs_replaced(a, b, p),
        eq_but_grads(b, c),
    ensures
        outs_replaced(a, c, p),
    decreases p.len(),
{
    if p.len() == 0 {
        match (a.data, b.data, c.data) {
            (
                NodeContent::UnaryNode { child: c1, .. },
                NodeContent::UnaryNode { child: c2, .. },
                NodeContent::UnaryNode { child: c3, .. },
            ) => {
                lemma_same_outs_compose(*c1, *c2, *c3);
            },
            (
                NodeContent::BinaryNode { left: l1, right: r1, .. },
                NodeContent::BinaryNode { left: l2, right: r2, .. },
                NodeContent::BinaryNode { left: l3, right: r3, .. },
            ) => {
                lemma_same_outs_compose(*l1, *l2, *l3);
                lemma_same_outs_compose(*r1, *r2, *r3);
            },
            _ => {},
        }
    } else {
        match (a.data, b.data, c.data) {
            (
                NodeContent::UnaryNode { child: c1, .. },
                NodeContent::UnaryNode { child: c2, .. },
                NodeContent::UnaryNode { child: c3, .. },
            ) => {
                lemma_outs_replaced_compose(*c1, *c2, *c3, p.skip(1));
            },
            (
                NodeContent::BinaryNode { left: l1, right: r1, .. },
                NodeContent::BinaryNode { left: l2, right: r2, .. },
                NodeContent::BinaryNode { left: l3, right: r3, .. },
            ) => {
                if p[0] == Move::Left {
                    lemma_outs_replaced_compose(*l1, *l2, *l3, p.skip(1));
                    lemma_same_outs_compose(*r1, *r2, *r3);
                } else {
                    lemma_same_outs_compose(*l1, *l2, *l3);
                    lemma_outs_replaced_compose(*r1, *r2, *r3, p.skip(1));
                }
            },
            _ => {},
        }
    }
}

/// The children of `b` differ from those of `a` only in memoized
/// outputs, and `b` holds the same gate.
pub open spec fn cont_eq_but_outs(a: NodeContent, b: NodeContent) -> bool {
    match (a, b) {
        (NodeContent::Input(i), NodeContent::Input(j)) => j == i,
        (
            NodeContent::UnaryNode { op: o1, child: c1 },
            NodeContent::UnaryNode { op: o2, child: c2 },
        ) => o2 == o1 && eq_but_outs(*c1, *c2),
        (
            NodeContent::BinaryNode { op: o1, left: l1, right: r1 },
            NodeContent::BinaryNode { op: o2, left: l2, right: r2 },
        ) => o2 == o1 && eq_but_outs(*l1, *l2) && eq_but_outs(*r1, *r2),
        _ => false,
    }
}

// ---------------------------------------------------------------------
// Executable helpers.
// ---------------------------------------------------------------------

/// Copy of a vector of plain values.
#[verifier::loop_isolation(false)]
pub fn copy_vec<T: Copy>(v: &Vec<T>) -> (r: Vec<T>)
    ensures
        r@ == v@,
{
    let mut r: Vec<T> = Vec::new();
    let mut k: usize = 0;
    while k < v.len()
        invariant
            k <= v@.len(),
            r@ == v@.subrange(0, k as int),
        decreases v@.len() - k,
    {
        r.push(v[k]);
        k = k + 1;
    }
    proof {
        assert(r@ =~= v@);
    }
    r
}

impl NodeContent {
    /// Number of nodes of this subtree.
    pub fn size(&self) -> (r: usize)
        requires
            size_c(*self) <= usize::MAX,
        ensures
            r == size_c(*self),
        decreases *self,
    {
        match self {
            NodeContent::Input(_) => 1,
            NodeContent::UnaryNode { child, .. } => child.size() + 1,
            NodeContent::BinaryNode { left, right, .. } => left.size() + right.size() + 1,
        }
    }

    /// Forget every memoized sensitivity below this gate.
    pub fn clear_backward(&mut self)
        ensures
            cont_eq_but_grads(*old(self), *final(self)),
            cont_grads_none(*final(self)),
        decreases *old(self),
    {
        match self {
            NodeContent::Input(_) => {},
            NodeContent::UnaryNode { child, .. } => {
                child.clear_backward();
            },
            NodeContent::BinaryNode { left, right, .. } => {
                left.clear_backward();
                right.clear_backward();
            },
        }
    }
}

/// The children of `b` differ from those of `a` only in memoized
/// sensitivities, and `b` holds the same gate.
pub open spec fn cont_eq_but_grads(a: NodeContent, b: NodeContent) -> bool {
    match (a, b) {
        (NodeContent::Input(i), NodeContent::Input(j)) => j == i,
        (
            NodeContent::UnaryNode { op: o1, child: c1 },
            NodeContent::UnaryNode { op: o2, child: c2 },
        ) => o2 == o1 && eq_but_grads(*c1, *c2),
        (
            NodeContent::BinaryNode { op: o1, left: l1, right: r1 },
            NodeContent::BinaryNode { op: o2, left: l2, right: r2 },
        ) => o2 == o1 && eq_but_grads(*l1, *l2) && eq_but_grads(*r1, *r2),
        _ => false,
    }
}

impl Node {
    /// Number of nodes of the tree.
    pub fn size(&self) -> (r: usize)
        requires
            size_spec(*self) <= usize::MAX,
        ensures
            r == size_spec(*self),
        decreases *self,
    {
        self.data.size()
    }

    /// Forget every memoized sensitivity of the tree.
    pub fn clear_backward(&mut self)
        ensures
            eq_but_grads(*old(self), *final(self)),
            grads_none(*final(self)),
        decreases *old(self),
    {
        self.grads = None;
        self.data.clear_backward()
    }
}

impl NodeContent {
    /// Compute this subexpression's word for every example, bottom up,
    /// memoizing every child subtree on the way. The result is exactly the
    /// mathematical evaluation: a child's memoized output is only reused
    /// where it is known to agree with it.
    #[verifier::loop_isolation(false)]
    pub fn forward(&mut self, inputs: &Vec<Vec<u32>>) -> (r: Vec<u32>)
        requires
            compat_c(*old(self), inputs@),
            cont_out_ok(*old(self), inputs@),
            cont_out_closed(*old(self)),
        ensures
            cont_eq_but_outs(*old(self), *final(self)),
            r@.len() == inputs@.len(),
            forall|k: int| 0 <= k < inputs@.len() ==> r@[k] == evalc(*old(self), inputs@[k]),
            cont_out_full(*final(self), inputs@.len()),
            cont_out_ok(*final(self), inputs@),
            cont_out_closed(*final(self)),
        decreases *old(self),
    {
        match self {
            NodeContent::Input(i) => {
                let ii: usize = *i;
                let mut out: Vec<u32> = Vec::new();
                let mut k: usize = 0;
                while k < inputs.len()
                    invariant
                        k <= inputs@.len(),
                        out@.len() == k,
                        forall|j: int| 0 <= j < k ==> out@[j] == inputs@[j]@[ii as int],
                    decreases inputs@.len() - k,
                {
                    let row = &inputs[k];
                    out.push(row[ii]);
                    k = k + 1;
                }
                out
            },
            NodeContent::UnaryNode { op, child } => {
                let opv: UnaryOp = *op;
                let child_out = child.forward(inputs);
                let mut out: Vec<u32> = Vec::new();
                let mut k: usize = 0;
                while k < child_out.len()
                    invariant
                        k <= child_out@.len(),
                        out@.len() == k,
                        forall|j: int| 0 <= j < k ==> out@[j] == opv.apply_spec(child_out@[j]),
                    decreases child_out@.len() - k,
                {
                    out.push(opv.apply(child_out[k]));
                    k = k + 1;
                }
                out
            },
            NodeContent::BinaryNode { op, left, right } => {
                let opv: BinaryOp = *op;
                let left_out = left.forward(inputs);
                let right_out = right.forward(inputs);
                let mut out: Vec<u32> = Vec::new();
                let mut k: usize = 0;
                while k < left_out.len()
                    invariant
                        k <= left_out@.len(),
                        out@.len() == k,
                        forall|j: int| 0 <= j < k ==> out@[j] == opv.apply_spec(
                            left_out@[j],
                            right_out@[j],
                        ),
                    decreases left_out@.len() - k,
                {
                    out.push(opv.apply(left_out[k], right_out[k]));
                    k = k + 1;
                }
                out
            },
        }
    }
}

impl Node {
    /// Compute the tree's output word for every example. When a memoized
    /// output is present it is returned as is; the cache validity
    /// invariant guarantees it equals the mathematical evaluation.
    pub fn forward(&mut self, inputs: &Vec<Vec<u32>>) -> (r: Vec<u32>)
        requires
            compat(*old(self), inputs@),
            out_ok(*old(self), inputs@),
            out_closed(*old(self)),
        ensures
            old(self).outputs is Some ==> *final(self) == *old(self),
            eq_but_outs(*old(self), *final(self)),
            r@.len() == inputs@.len(),
            forall|k: int| 0 <= k < inputs@.len() ==> r@[k] == eval(*old(self), inputs@[k]),
            out_full(*final(self), inputs@.len()),
            out_ok(*final(self), inputs@),
            out_closed(*final(self)),
        decreases *old(self),
    {
        let has_cache = self.outputs.is_some();
        if has_cache {
            let r = match &self.outputs {
                Some(v) => copy_vec(v),
                None => Vec::new(),
            };
            proof {
                lemma_frames_refl(*self);
            }
            r
        } else {
            let r = self.data.forward(inputs);
            let c = copy_vec(&r);
            self.outputs = Some(c);
            proof {
                assert(same_gates(*old(self), *self)) by {
                    lemma_eq_but_outs_grads_helper(*old(self), *self);
                }
                assert forall|k: int| 0 <= k < inputs@.len() implies r@[k] == eval(
                    *self,
                    inputs@[k],
                ) by {
                    lemma_same_gates_eval(*old(self), *self, inputs@[k]);
                }
            }
            r
        }
    }
}

/// Helper: the operator layer of `eq_but_outs` at one node.
proof fn lemma_eq_but_outs_grads_helper(a: Node, b: Node)
    requires
        b.id == a.id,
        b.grads == a.grads,
        cont_eq_but_outs(a.data, b.data),
    ensures
        same_gates(a, b),
{
    lemma_eq_but_outs_grads(a, b, Seq::empty());
}

impl NodeContent {
    /// Propagate the sensitivities `grads`, received by this gate's
    /// output, down to every node below, memoizing each node's pair. A
    /// binary gate needs the sibling's memoized forward value, so a full
    /// forward pass must have come first.
    #[verifier::loop_isolation(false)]
    pub fn backward(&mut self, grads: &Vec<Grad>)
        requires
            cont_out_full(*old(self), grads@.len()),
            cont_grads_none(*old(self)),
        ensures
            cont_eq_but_grads(*old(self), *final(self)),
            forall|rows: Seq<Vec<u32>>|
                rows.len() == grads@.len() && #[trigger] cont_out_ok(*old(self), rows)
                    ==> cont_grads_full(*final(self), rows, grads@),
        decreases *old(self),
    {
        match self {
            NodeContent::Input(_) => {},
            NodeContent::UnaryNode { op, child } => {
                let opv: UnaryOp = *op;
                let ghost child_pre = **child;
                let mut child_grads: Vec<Grad> = Vec::new();
                let mut k: usize = 0;
                while k < grads.len()
                    invariant
                        k <= grads@.len(),
                        child_grads@.len() == k,
                        forall|j: int| 0 <= j < k ==> child_grads@[j] == opv.grad_spec(grads@[j]),
                    decreases grads@.len() - k,
                {
                    child_grads.push(opv.grad(grads[k]));
                    k = k + 1;
                }
                child.backward(child_grads);
                proof {
                    assert forall|rows: Seq<Vec<u32>>|
                        rows.len() == grads@.len() && #[trigger] cont_out_ok(*old(self), rows)
                            implies cont_grads_full(*self, rows, grads@) by {
                        assert(out_ok(child_pre, rows));
                        assert(sg(**child) =~= Seq::new(
                            rows.len(),
                            |j: int| opv.grad_spec(grads@[j]),
                        ));
                    }
                }
            },
            NodeContent::BinaryNode { op, left, right } => {
                let opv: BinaryOp = *op;
                let ghost left_pre = **left;
                let ghost right_pre = **right;

                let n = grads.len();
                let mut left_grads: Vec<Grad> = Vec::new();
                {
                    let rv: &Vec<u32> = right.outputs.as_ref().unwrap();
                    let mut k: usize = 0;
                    while k < n
                        invariant
                            k <= grads@.len(),
                            left_grads@.len() == k,
                            forall|j: int| 0 <= j < k ==> left_grads@[j] == opv.grad_x_spec(
                                grads@[j],
                                rv@[j],
                            ),
                        decreases grads@.len() - k,
                    {
                        left_grads.push(opv.grad_x(grads[k], rv[k]));
                        k = k + 1;
                    }
                }
                left.backward(left_grads);

                let mut right_grads: Vec<Grad> = Vec::new();
                {
                    let lv: &Vec<u32> = left.outputs.as_ref().unwrap();
                    let mut k: usize = 0;
                    while k < n
                        invariant
                            k <= grads@.len(),
                            right_grads@.len() == k,
                            forall|j: int| 0 <= j < k ==> right_grads@[j] == opv.grad_y_spec(
                                grads@[j],
                                lv@[j],
                            ),
                        decreases grads@.len() - k,
                    {
                        right_grads.push(opv.grad_y(grads[k], lv[k]));
                        k = k + 1;
                    }
                }
                right.backward(right_grads);

                proof {
                    lemma_eq_but_grads_out(left_pre, **left, Seq::empty(), grads@.len());
                    lemma_eq_but_grads_out(right_pre, **right, Seq::empty(), grads@.len());
                    assert forall|rows: Seq<Vec<u32>>|
                        rows.len() == grads@.len() && #[trigger] cont_out_ok(*old(self), rows)
                            implies cont_grads_full(*self, rows, grads@) by {
                        assert(out_ok(left_pre, rows));
                        assert(out_ok(right_pre, rows));
                        assert forall|j: int| 0 <= j < rows.len() implies eval(**right, rows[j])
                            == eval(right_pre, rows[j]) && eval(**left, rows[j]) == eval(
                            left_pre,
                            rows[j],
                        ) by {
                            lemma_same_gates_eval(right_pre, **right, rows[j]);
                            lemma_same_gates_eval(left_pre, **left, rows[j]);
                        }
                        assert(sg(**left) =~= Seq::new(
                            rows.len(),
                            |j: int| opv.grad_x_spec(grads@[j], eval(**right, rows[j])),
                        ));
                        assert(sg(**right) =~= Seq::new(
                            rows.len(),
                            |j: int| opv.grad_y_spec(grads@[j], eval(**left, rows[j])),
                        ));
                    }
                }
            },
        }
    }
}

// ---------------------------------------------------------------------
// Path-addressed mutation.
// ---------------------------------------------------------------------

/// The root-to-node path encoded by a node id: the binary digits of `id`
/// below its leading one, highest first.
pub open spec fn path_of(id: nat) -> Seq<Move>
    decreases id,
{
    if id <= 1 {
        Seq::empty()
    } else {
        path_of(id / 2).push(
            if id % 2 == 0 {
                Move::Left
            } else {
                Move::Right
            },
        )
    }
}

/// The path `p` leads from `n` to an existing node whose kind matches the
/// replacement gate `op`: mutating along `p` with `op` cannot fail.
pub open spec fn valid_target(n: Node, p: Seq<Move>, op: Op) -> bool
    decreases p.len(),
{
    if p.len() == 0 {
        match (n.data, op) {
            (NodeContent::Input(_), Op::Input(_)) => true,
            (NodeContent::UnaryNode { .. }, Op::Unary(_)) => true,
            (NodeContent::BinaryNode { .. }, Op::Binary(_)) => true,
            _ => false,
        }
    } else {
        match n.data {
            NodeContent::Input(_) => false,
            NodeContent::UnaryNode { child, .. } => p[0] == Move::Left && valid_target(
                *child,
                p.skip(1),
                op,
            ),
            NodeContent::BinaryNode { left, right, .. } => if p[0] == Move::Left {
                valid_target(*left, p.skip(1), op)
            } else {
                valid_target(*right, p.skip(1), op)
            },
        }
    }
}

/// The gates of `b` are the gates of `a` with the node at path `p`
/// replaced by `op`; ids are unchanged everywhere.
pub open spec fn gates_replaced(a: Node, b: Node, p: Seq<Move>, op: Op) -> bool
    decreases p.len(),
{
    b.id == a.id && if p.len() == 0 {
        match (a.data, b.data, op) {
            (NodeContent::Input(_), NodeContent::Input(j2), Op::Input(j)) => j2 == j,
            (
                NodeContent::UnaryNode { child: c1, .. },
                NodeContent::UnaryNode { op: o2, child: c2 },
                Op::Unary(u),
            ) => o2 == u && same_gates(*c1, *c2),
            (
                NodeContent::BinaryNode { left: l1, right: r1, .. },
                NodeContent::BinaryNode { op: o2, left: l2, right: r2 },
                Op::Binary(x),
            ) => o2 == x && same_gates(*l1, *l2) && same_gates(*r1, *r2),
            _ => false,
        }
    } else {
        match (a.data, b.data) {
            (
                NodeContent::UnaryNode { op: o1, child: c1 },
                NodeContent::UnaryNode { op: o2, child: c2 },
            ) => p[0] == Move::Left && o2 == o1 && gates_replaced(*c1, *c2, p.skip(1), op),
            (
                NodeContent::BinaryNode { op: o1, left: l1, right: r1 },
                NodeContent::BinaryNode { op: o2, left: l2, right: r2 },
            ) => o2 == o1 && if p[0] == Move::Left {
                gates_replaced(*l1, *l2, p.skip(1), op) && same_gates(*r1, *r2)
            } else {
                same_gates(*l1, *l2) && gates_replaced(*r1, *r2, p.skip(1), op)
            },
            _ => false,
        }
    }
}

/// `same_gates` is transitive.
pub proof fn lemma_same_gates_trans(a: Node, b: Node, c: Node)
    requires
        same_gates(a, b),
        same_gates(b, c),
    ensures
        same_gates(a, c),
    decreases a,
{
    match (a.data, b.data, c.data) {
        (
            NodeContent::UnaryNode { child: c1, .. },
            NodeContent::UnaryNode { child: c2, .. },
            NodeContent::UnaryNode { child: c3, .. },
        ) => {
            lemma_same_gates_trans(*c1, *c2, *c3);
        },
        (
            NodeContent::BinaryNode { left: l1, right: r1, .. },
            NodeContent::BinaryNode { left: l2, right: r2, .. },
            NodeContent::BinaryNode { left: l3, right: r3, .. },
        ) => {
            lemma_same_gates_trans(*l1, *l2, *l3);
            lemma_same_gates_trans(*r1, *r2, *r3);
        },
        _ => {},
    }
}

/// A gate replacement followed by a gate-preserving step is still the
/// same gate replacement.
pub proof fn lemma_gates_replaced_compose(a: Node, b: Node, c: Node, p: Seq<Move>, op: Op)
    requires
        gates_replaced(a, b, p, op),
        eq_but_grads(b, c),
    ensures
        gates_replaced(a, c, p, op),
    decreases p.len(),
{
    lemma_eq_but_grads_out(b, c, Seq::empty(), 0);
    if p.len() == 0 {
        match (b.data, c.data) {
            (
                NodeContent::UnaryNode { child: c2, .. },
                NodeContent::UnaryNode { child: c3, .. },
            ) => {
                lemma_eq_but_grads_out(*c2, *c3, Seq::empty(), 0);
                match a.data {
                    NodeContent::UnaryNode { child: c1, .. } => {
                        lemma_same_gates_trans(*c1, *c2, *c3);
                    },
                    _ => {},
                }
            },
            (
                NodeContent::BinaryNode { left: l2, right: r2, .. },
                NodeContent::BinaryNode { left: l3, right: r3, .. },
            ) => {
                lemma_eq_but_grads_out(*l2, *l3, Seq::empty(), 0);
                lemma_eq_but_grads_out(*r2, *r3, Seq::empty(), 0);
                match a.data {
                    NodeContent::BinaryNode { left: l1, right: r1, .. } => {
                        lemma_same_gates_trans(*l1, *l2, *l3);
                        lemma_same_gates_trans(*r1, *r2, *r3);
                    },
                    _ => {},
                }
            },
            _ => {},
        }
    } else {
        match (a.data, b.data, c.data) {
            (
                NodeContent::UnaryNode { child: c1, .. },
                NodeContent::UnaryNode { child: c2, .. },
                NodeContent::UnaryNode { child: c3, .. },
            ) => {
                lemma_gates_replaced_compose(*c1, *c2, *c3, p.skip(1), op);
            },
            (
                NodeContent::BinaryNode { left: l1, right: r1, .. },
                NodeContent::BinaryNode { left: l2, right: r2, .. },
                NodeContent::BinaryNode { left: l3, right: r3, .. },
            ) => {
                lemma_eq_but_grads_out(*l2, *l3, Seq::empty(), 0);
                lemma_eq_but_grads_out(*r2, *r3, Seq::empty(), 0);
                if p[0] == Move::Left {
                    lemma_gates_replaced_compose(*l1, *l2, *l3, p.skip(1), op);
                    lemma_same_gates_trans(*r1, *r2, *r3);
                } else {
                    lemma_same_gates_trans(*l1, *l2, *l3);
                    lemma_gates_replaced_compose(*r1, *r2, *r3, p.skip(1), op);
                }
            },
            _ => {},
        }
    }
}

/// Path of the node with the given id, encoded for consumption from the
/// back: popping the returned vector yields the moves from the root.
#[verifier::loop_isolation(false)]
pub fn moves_for_id(id: usize) -> (moves: Vec<Move>)
    requires
        id >= 1,
    ensures
        moves@.reverse() == path_of(id as nat),
{
    let mut moves: Vec<Move> = Vec::new();
    let mut cur: usize = id;
    while cur > 1
        invariant
            cur >= 1,
            path_of(id as nat) == path_of(cur as nat) + moves@.reverse(),
        decreases cur,
    {
        let ghost pre = moves@;
        let m = if cur % 2 == 0 {
            Move::Left
        } else {
            Move::Right
        };
        moves.push(m);
        proof {
            assert(moves@.reverse() =~= seq![m] + pre.reverse());
            assert(path_of(cur as nat) + pre.reverse() =~= path_of((cur / 2) as nat) + (seq![m]
                + pre.reverse()));
        }
        cur = cur / 2;
    }
    proof {
        assert(path_of(cur as nat) + moves@.reverse() =~= moves@.reverse());
    }
    moves
}

/// The replacement gate `op` fits the kind of this gate.
pub open spec fn cont_kind_match(c: NodeContent, op: Op) -> bool {
    match (c, op) {
        (NodeContent::Input(_), Op::Input(_)) => true,
        (NodeContent::UnaryNode { .. }, Op::Unary(_)) => true,
        (NodeContent::BinaryNode { .. }, Op::Binary(_)) => true,
        _ => false,
    }
}

/// `b` is `a` with its own gate replaced by `op` and its children left
/// untouched.
pub open spec fn cont_set(a: NodeContent, b: NodeContent, op: Op) -> bool {
    match (a, b, op) {
        (NodeContent::Input(_), NodeContent::Input(j2), Op::Input(j)) => j2 == j,
        (
            NodeContent::UnaryNode { child: c1, .. },
            NodeContent::UnaryNode { op: o2, child: c2 },
            Op::Unary(u),
        ) => o2 == u && *c2 == *c1,
        (
            NodeContent::BinaryNode { left: l1, right: r1, .. },
            NodeContent::BinaryNode { op: o2, left: l2, right: r2 },
            Op::Binary(x),
        ) => o2 == x && *l2 == *l1 && *r2 == *r1,
        _ => false,
    }
}

impl NodeContent {
    /// Replace this node's gate (or input index) by `op`, which must be
    /// of the node's kind.
    pub fn set_op(&mut self, op: Op)
        requires
            cont_kind_match(*old(self), op),
        ensures
            cont_set(*old(self), *final(self), op),
    {
        match self {
            NodeContent::Input(i) => {
                if let Op::Input(j) = op {
                    *i = j;
                } else {
                    proof {
                        assert(false);
                    }
                }
            },
            NodeContent::UnaryNode { op: o, .. } => {
                if let Op::Unary(u) = op {
                    *o = u;
                } else {
                    proof {
                        assert(false);
                    }
                }
            },
            NodeContent::BinaryNode { op: o, .. } => {
                if let Op::Binary(x) = op {
                    *o = x;
                } else {
                    proof {
                        assert(false);
                    }
                }
            },
        }
    }
}

impl Node {
    /// Walk the remaining `pos` moves of `moves` from this node, clearing
    /// every memoized output on the way, and replace the reached node's
    /// gate by `op`.
    fn update_at(&mut self, moves: &Vec<Move>, pos: usize, op: Op)
        requires
            pos <= moves@.len(),
            valid_target(*old(self), moves@.subrange(0, pos as int).reverse(), op),
            out_closed(*old(self)),
        ensures
            gates_replaced(
                *old(self),
                *final(self),
                moves@.subrange(0, pos as int).reverse(),
                op,
            ),
            outs_replaced(*old(self), *final(self), moves@.subrange(0, pos as int).reverse()),
            final(self).grads == old(self).grads,
            final(self).outputs is None,
            out_closed(*final(self)),
            forall|rows: Seq<Vec<u32>>| #[trigger]
                out_ok(*old(self), rows) ==> out_ok(*final(self), rows),
        decreases pos,
    {
        let ghost p = moves@.subrange(0, pos as int).reverse();
        self.outputs = None;
        if pos == 0 {
            self.data.set_op(op);
            proof {
                let a_data = old(self).data;
                let b_data = self.data;
                match (a_data, b_data) {
                    (
                        NodeContent::UnaryNode { child: c1, .. },
                        NodeContent::UnaryNode { child: c2, .. },
                    ) => {
                        lemma_frames_refl(*c1);
                    },
                    (
                        NodeContent::BinaryNode { left: l1, right: r1, .. },
                        NodeContent::BinaryNode { left: l2, right: r2, .. },
                    ) => {
                        lemma_frames_refl(*l1);
                        lemma_frames_refl(*r1);
                    },
                    _ => {},
                }
            }
        } else {
            proof {
                assert(p[0] == moves@[pos - 1]);
                assert(p.skip(1) =~= moves@.subrange(0, pos - 1).reverse());
            }
            let m = moves[pos - 1];
            match &mut self.data {
                NodeContent::UnaryNode { child, .. } => {
                    let ghost child_pre = **child;
                    child.update_at(moves, pos - 1, op);
                    proof {
                        assert forall|rows: Seq<Vec<u32>>| #[trigger]
                            out_ok(*old(self), rows) implies out_ok(*self, rows) by {
                            assert(out_ok(child_pre, rows));
                        }
                    }
                },
                NodeContent::BinaryNode { left, right, .. } => {
                    let ghost left_pre = **left;
                    let ghost right_pre = **right;
                    if let Move::Left = m {
                        left.update_at(moves, pos - 1, op);
                        proof {
                            lemma_frames_refl(**right);
                            assert forall|rows: Seq<Vec<u32>>| #[trigger]
                                out_ok(*old(self), rows) implies out_ok(*self, rows) by {
                                assert(out_ok(left_pre, rows));
                            }
                        }
                    } else {
                        right.update_at(moves, pos - 1, op);
                        proof {
                            lemma_frames_refl(**left);
                            assert forall|rows: Seq<Vec<u32>>| #[trigger]
                                out_ok(*old(self), rows) implies out_ok(*self, rows) by {
                                assert(out_ok(right_pre, rows));
                            }
                        }
                    }
                },
                NodeContent::Input(_) => {
                    proof {
                        assert(false);
                    }
                },
            }
        }
    }

    /// Replace the operator of the node with the given id by `op`, which must
    /// be of that node's kind. The memoized outputs of the node and of
    /// all its ancestors are dropped — the change invalidates them — and
    /// every memoized sensitivity of the tree is dropped. No stale cache
    /// survives: every output-cache validity fact carries over to the
    /// mutated tree.
    pub fn update_gate(&mut self, id: usize, op: Op)
        requires
            id >= 1,
            valid_target(*old(self), path_of(id as nat), op),
            out_closed(*old(self)),
        ensures
            gates_replaced(*old(self), *final(self), path_of(id as nat), op),
            outs_replaced(*old(self), *final(self), path_of(id as nat)),
            grads_none(*final(self)),
            out_closed(*final(self)),
            forall|rows: Seq<Vec<u32>>| #[trigger]
                out_ok(*old(self), rows) ==> out_ok(*final(self), rows),
    {
        let moves = moves_for_id(id);
        proof {
            assert(moves@.subrange(0, moves@.len() as int) =~= moves@);
        }
        let n = moves.len();
        self.update_at(&moves, n, op);
        let ghost mid = *self;
        self.clear_backward();
        proof {
            lemma_gates_replaced_compose(*old(self), mid, *self, path_of(id as nat), op);
            lemma_outs_replaced_compose(*old(self), mid, *self, path_of(id as nat));
            lemma_eq_but_grads_out(mid, *self, Seq::empty(), 0);
            assert forall|rows: Seq<Vec<u32>>| #[trigger]
                out_ok(*old(self), rows) implies out_ok(*self, rows) by {
                assert(out_ok(mid, rows));
                lemma_eq_but_grads_out(mid, *self, rows, 0);
            }
        }
    }

    /// Plant the sensitivities `grads` at the root and propagate them
    /// through the whole tree. When a memoized sensitivity is already
    /// present the call does nothing, like the forward memoization.
    pub fn backward(&mut self, grads: Vec<Grad>)
        requires
            old(self).grads is Some || (grads_none(*old(self)) && out_full(
                *old(self),
                grads@.len(),
            )),
        ensures
            old(self).grads is Some ==> *final(self) == *old(self),
            grads_none(*old(self)) ==> {
                &&& eq_but_grads(*old(self), *final(self))
                &&& final(self).grads is Some
                &&& sg(*final(self)) == grads@
                &&& forall|rows: Seq<Vec<u32>>|
                    rows.len() == grads@.len() && #[trigger] out_ok(*old(self), rows)
                        ==> grads_full(*final(self), rows)
            },
        decreases *old(self),
    {
        if self.grads.is_none() {
            self.data.backward(&grads);
            self.grads = Some(grads);
            proof {
                lemma_frames_refl(*old(self));
                assert forall|rows: Seq<Vec<u32>>|
                    rows.len() == sg(*self).len() && #[trigger] out_ok(*old(self), rows)
                        implies grads_full(*self, rows) by {
                    assert(cont_out_ok(old(self).data, rows));
                }
            }
        }
    }
}

// ---------------------------------------------------------------------
// The delta engine: exact benefit of every local edit.
// ---------------------------------------------------------------------

/// Change of the score numerator over the first `m` examples if the node
/// `c` — an input reference — were rewired to input `j`.
pub open spec fn delta_input(
    c: NodeContent,
    rows: Seq<Vec<u32>>,
    gs: Seq<Grad>,
    j: int,
    m: int,
) -> int
    decreases m,
{
    if m <= 0 {
        0
    } else {
        delta_input(c, rows, gs, j, m - 1) + psi_n(rows[m - 1]@[j], gs[m - 1]) - psi_n(
            evalc(c, rows[m - 1]),
            gs[m - 1],
        )
    }
}

/// Change of the score numerator over the first `m` examples if the
/// unary gate `c` were replaced by `cand`, keeping the child `child`.
pub open spec fn delta_unary(
    c: NodeContent,
    child: Node,
    cand: UnaryOp,
    rows: Seq<Vec<u32>>,
    gs: Seq<Grad>,
    m: int,
) -> int
    decreases m,
{
    if m <= 0 {
        0
    } else {
        delta_unary(c, child, cand, rows, gs, m - 1) + psi_n(
            cand.apply_spec(eval(child, rows[m - 1])),
            gs[m - 1],
        ) - psi_n(evalc(c, rows[m - 1]), gs[m - 1])
    }
}

/// Change of the score numerator over the first `m` examples if the
/// binary gate `c` were replaced by `cand`, keeping both children.
pub open spec fn delta_binary(
    c: NodeContent,
    left: Node,
    right: Node,
    cand: BinaryOp,
    rows: Seq<Vec<u32>>,
    gs: Seq<Grad>,
    m: int,
) -> int
    decreases m,
{
    if m <= 0 {
        0
    } else {
        delta_binary(c, left, right, cand, rows, gs, m - 1) + psi_n(
            cand.apply_spec(eval(left, rows[m - 1]), eval(right, rows[m - 1])),
            gs[m - 1],
        ) - psi_n(evalc(c, rows[m - 1]), gs[m - 1])
    }
}

/// The delta table `d` is exactly the table the sensitivity engine owes
/// the node `c` under the sensitivities `gs`: one entry for every alternative
/// of the same family — every other input index, or every other gate of
/// the family — with the exact change of the score numerator.
pub open spec fn deltas_ok(
    d: Deltas,
    c: NodeContent,
    rows: Seq<Vec<u32>>,
    gs: Seq<Grad>,
    n_inputs: int,
) -> bool {
    match c {
        NodeContent::Input(i) => d matches Deltas::Input(v) && {
            &&& (i as int) < n_inputs
            &&& v@.len() == n_inputs - 1
            &&& forall|t: int| 0 <= t < v@.len() ==> (#[trigger] v@[t]).0 == (
                if t < i {
                    t
                } else {
                    t + 1
                }) && v@[t].1 == delta_input(
                c,
                rows,
                gs,
                if t < i {
                    t
                } else {
                    t + 1
                },
                rows.len() as int,
            )
        },
        NodeContent::UnaryNode { op, child } => d matches Deltas::Unary(v) && {
            &&& op.wf()
            &&& v@.len() == 66
            &&& forall|t: int| 0 <= t < v@.len() ==> (#[trigger] v@[t]).0 == unary_family_at(
                if t < unary_index_of(op) {
                    t
                } else {
                    t + 1
                }) && v@[t].1 == delta_unary(
                c,
                *child,
                unary_family_at(
                    if t < unary_index_of(op) {
                        t
                    } else {
                        t + 1
                    },
                ),
                rows,
                gs,
                rows.len() as int,
            )
        },
        NodeContent::BinaryNode { op, left, right } => d matches Deltas::Binary(v) && {
            &&& v@.len() == 2
            &&& forall|t: int| 0 <= t < v@.len() ==> (#[trigger] v@[t]).0 == binary_family_at(
                if t < binary_index_of(op) {
                    t
                } else {
                    t + 1
                }) && v@[t].1 == delta_binary(
                c,
                *left,
                *right,
                binary_family_at(
                    if t < binary_index_of(op) {
                        t
                    } else {
                        t + 1
                    },
                ),
                rows,
                gs,
                rows.len() as int,
            )
        },
    }
}

/// Each delta is a difference of two `psi` sums, so it lies within
/// `32 m` in magnitude.
pub proof fn lemma_delta_input_bound(
    c: NodeContent,
    rows: Seq<Vec<u32>>,
    gs: Seq<Grad>,
    j: int,
    m: int,
)
    requires
        m >= 0,
    ensures
        -32 * m <= delta_input(c, rows, gs, j, m) <= 32 * m,
    decreases m,
{
    if m > 0 {
        lemma_delta_input_bound(c, rows, gs, j, m - 1);
        crate::bits::lemma_pc_le_32(!(rows[m - 1]@[j] ^ gs[m - 1].target) & gs[m - 1].influence);
        crate::bits::lemma_pc_le_32(
            !(evalc(c, rows[m - 1]) ^ gs[m - 1].target) & gs[m - 1].influence,
        );
    }
}

pub proof fn lemma_delta_unary_bound(
    c: NodeContent,
    child: Node,
    cand: UnaryOp,
    rows: Seq<Vec<u32>>,
    gs: Seq<Grad>,
    m: int,
)
    requires
        m >= 0,
    ensures
        -32 * m <= delta_unary(c, child, cand, rows, gs, m) <= 32 * m,
    decreases m,
{
    if m > 0 {
        lemma_delta_unary_bound(c, child, cand, rows, gs, m - 1);
        crate::bits::lemma_pc_le_32(
            !(cand.apply_spec(eval(child, rows[m - 1])) ^ gs[m - 1].target) & gs[m - 1].influence,
        );
        crate::bits::lemma_pc_le_32(
            !(evalc(c, rows[m - 1]) ^ gs[m - 1].target) & gs[m - 1].influence,
        );
    }
}

pub proof fn lemma_delta_binary_bound(
    c: NodeContent,
    left: Node,
    right: Node,
    cand: BinaryOp,
    rows: Seq<Vec<u32>>,
    gs: Seq<Grad>,
    m: int,
)
    requires
        m >= 0,
    ensures
        -32 * m <= delta_binary(c, left, right, cand, rows, gs, m) <= 32 * m,
    decreases m,
{
    if m > 0 {
        lemma_delta_binary_bound(c, left, right, cand, rows, gs, m - 1);
        crate::bits::lemma_pc_le_32(
            !(cand.apply_spec(eval(left, rows[m - 1]), eval(right, rows[m - 1])) ^ gs[m
                - 1].target) & gs[m - 1].influence,
        );
        crate::bits::lemma_pc_le_32(
            !(evalc(c, rows[m - 1]) ^ gs[m - 1].target) & gs[m - 1].influence,
        );
    }
}

/// `entries` is exactly the list of delta tables of the tree `n`, in
/// root-first order: one entry per node, keyed by the node's id, each
/// table correct for that node's stored sensitivities.
pub open spec fn scores_match(
    entries: Seq<(usize, Deltas)>,
    n: Node,
    rows: Seq<Vec<u32>>,
    n_inputs: int,
) -> bool
    decreases n,
{
    &&& entries.len() == size_spec(n)
    &&& entries.len() >= 1
    &&& entries[0].0 == n.id
    &&& deltas_ok(entries[0].1, n.data, rows, sg(n), n_inputs)
    &&& entries[0].1.bounded_by(32 * rows.len() as int)
    &&& match n.data {
        NodeContent::Input(_) => true,
        NodeContent::UnaryNode { child, .. } => scores_match(entries.skip(1), *child, rows, n_inputs),
        NodeContent::BinaryNode { left, right, .. } => scores_match(
            entries.subrange(1, 1 + size_spec(*left) as int),
            *left,
            rows,
            n_inputs,
        ) && scores_match(
            entries.subrange(1 + size_spec(*left) as int, entries.len() as int),
            *right,
            rows,
            n_inputs,
        ),
    }
}

impl NodeContent {
    /// The delta table of this gate: the exact change of the score
    /// numerator caused by every alternative local edit, computed from
    /// the memoized child outputs without re-evaluating the tree.
    #[verifier::loop_isolation(false)]
    fn compute_deltas(&mut self, grads: &Vec<Grad>, outputs: &Vec<u32>, inputs: &Vec<Vec<u32>>)
        -> (d: Deltas)
        requires
            1 <= inputs@.len() <= MAX_EXAMPLES,
            grads@.len() == inputs@.len(),
            outputs@.len() == inputs@.len(),
            forall|k: int| 0 <= k < inputs@.len() ==> (#[trigger] inputs@[k])@.len()
                == inputs@[0]@.len(),
            wf_shape_c(*old(self), inputs@[0]@.len() as nat),
            cont_out_ok(*old(self), inputs@),
            cont_out_full(*old(self), inputs@.len()),
            cont_out_closed(*old(self)),
            forall|k: int| 0 <= k < inputs@.len() ==> outputs@[k] == evalc(
                *old(self),
                inputs@[k],
            ),
        ensures
            *final(self) == *old(self),
            deltas_ok(d, *old(self), inputs@, grads@, inputs@[0]@.len() as int),
            d.bounded_by(32 * inputs@.len() as int),
    {
        let n = inputs.len();
        match self {
            NodeContent::Input(i) => {
                let ii: usize = *i;
                let n_inputs = inputs[0].len();
                let mut v: Vec<(usize, i64)> = Vec::new();
                let mut j: usize = 0;
                while j < n_inputs
                    invariant
                        j <= n_inputs,
                        v@.len() == (if j <= ii {
                            j as int
                        } else {
                            j - 1
                        }),
                        forall|t: int| 0 <= t < v@.len() ==> (#[trigger] v@[t]).0 == (
                            if t < ii {
                                t
                            } else {
                                t + 1
                            }) && v@[t].1 == delta_input(
                            *old(self),
                            inputs@,
                            grads@,
                            if t < ii {
                                t
                            } else {
                                t + 1
                            },
                            inputs@.len() as int,
                        ) && -32 * inputs@.len() <= v@[t].1 <= 32 * inputs@.len(),
                    decreases n_inputs - j,
                {
                    if j != ii {
                        let mut acc: i64 = 0;
                        let mut k: usize = 0;
                        while k < n
                            invariant
                                k <= n,
                                acc == delta_input(
                                    *old(self),
                                    inputs@,
                                    grads@,
                                    j as int,
                                    k as int,
                                ),
                                -32 * (k as int) <= acc <= 32 * (k as int),
                            decreases n - k,
                        {
                            let row = &inputs[k];
                            let a = psi(row[j], grads[k]);
                            let b = psi(outputs[k], grads[k]);
                            acc = acc + a as i64 - b as i64;
                            k = k + 1;
                        }
                        v.push((j, acc));
                    }
                    j = j + 1;
                }
                Deltas::Input(v)
            },
            NodeContent::UnaryNode { op, child } => {
                let opv: UnaryOp = *op;
                let ghost child_pre = **child;
                proof {
                    lemma_wf_shape_compat(child_pre, inputs@, inputs@[0]@.len() as nat);
                }
                let child_out = child.forward(inputs);
                let idx = unary_index(&opv);
                let mut v: Vec<(UnaryOp, i64)> = Vec::new();
                let mut u: usize = 0;
                while u < 67
                    invariant
                        u <= 67,
                        v@.len() == (if u <= idx {
                            u as int
                        } else {
                            u - 1
                        }),
                        forall|t: int| 0 <= t < v@.len() ==> (#[trigger] v@[t]).0
                            == unary_family_at(
                            if t < idx {
                                t
                            } else {
                                t + 1
                            }) && v@[t].1 == delta_unary(
                            *old(self),
                            child_pre,
                            unary_family_at(
                                if t < idx {
                                    t
                                } else {
                                    t + 1
                                },
                            ),
                            inputs@,
                            grads@,
                            inputs@.len() as int,
                        ) && -32 * inputs@.len() <= v@[t].1 <= 32 * inputs@.len(),
                    decreases 67 - u,
                {
                    if u != idx {
                        let cand = unary_at(u);
                        let mut acc: i64 = 0;
                        let mut k: usize = 0;
                        while k < n
                            invariant
                                k <= n,
                                acc == delta_unary(
                                    *old(self),
                                    child_pre,
                                    cand,
                                    inputs@,
                                    grads@,
                                    k as int,
                                ),
                                -32 * (k as int) <= acc <= 32 * (k as int),
                            decreases n - k,
                        {
                            let a = psi(cand.apply(child_out[k]), grads[k]);
                            let b = psi(outputs[k], grads[k]);
                            acc = acc + a as i64 - b as i64;
                            k = k + 1;
                        }
                        v.push((cand, acc));
                    }
                    u = u + 1;
                }
                Deltas::Unary(v)
            },
            NodeContent::BinaryNode { op, left, right } => {
                let opv: BinaryOp = *op;
                let ghost left_pre = **left;
                let ghost right_pre = **right;
                proof {
                    lemma_wf_shape_compat(left_pre, inputs@, inputs@[0]@.len() as nat);
                    lemma_wf_shape_compat(right_pre, inputs@, inputs@[0]@.len() as nat);
                }
                let left_out = left.forward(inputs);
                let right_out = right.forward(inputs);
                let idx = binary_index(&opv);
                let mut v: Vec<(BinaryOp, i64)> = Vec::new();
                let mut u: usize = 0;
                while u < 3
                    invariant
                        u <= 3,
                        v@.len() == (if u <= idx {
                            u as int
                        } else {
                            u - 1
                        }),
                        forall|t: int| 0 <= t < v@.len() ==> (#[trigger] v@[t]).0
                            == binary_family_at(
                            if t < idx {
                                t
                            } else {
                                t + 1
                            }) && v@[t].1 == delta_binary(
                            *old(self),
                            left_pre,
                            right_pre,
                            binary_family_at(
                                if t < idx {
                                    t
                                } else {
                                    t + 1
                                },
                            ),
                            inputs@,
                            grads@,
                            inputs@.len() as int,
                        ) && -32 * inputs@.len() <= v@[t].1 <= 32 * inputs@.len(),
                    decreases 3 - u,
                {
                    if u != idx {
                        let cand = binary_at(u);
                        let mut acc: i64 = 0;
                        let mut k: usize = 0;
                        while k < n
                            invariant
                                k <= n,
                                acc == delta_binary(
                                    *old(self),
                                    left_pre,
                                    right_pre,
                                    cand,
                                    inputs@,
                                    grads@,
                                    k as int,
                                ),
                                -32 * (k as int) <= acc <= 32 * (k as int),
                            decreases n - k,
                        {
                            let a = psi(cand.apply(left_out[k], right_out[k]), grads[k]);
                            let b = psi(outputs[k], grads[k]);
                            acc = acc + a as i64 - b as i64;
                            k = k + 1;
                        }
                        v.push((cand, acc));
                    }
                    u = u + 1;
                }
                Deltas::Binary(v)
            },
        }
    }
}

impl Node {
    /// The delta table of this node, from its memoized outputs and
    /// sensitivities.
    fn compute_deltas(&mut self, inputs: &Vec<Vec<u32>>) -> (d: Deltas)
        requires
            1 <= inputs@.len() <= MAX_EXAMPLES,
            forall|k: int| 0 <= k < inputs@.len() ==> (#[trigger] inputs@[k])@.len()
                == inputs@[0]@.len(),
            wf_shape(*old(self), inputs@[0]@.len() as nat),
            out_ok(*old(self), inputs@),
            out_full(*old(self), inputs@.len()),
            out_closed(*old(self)),
            old(self).grads is Some,
            sg(*old(self)).len() == inputs@.len(),
        ensures
            *final(self) == *old(self),
            deltas_ok(d, old(self).data, inputs@, sg(*old(self)), inputs@[0]@.len() as int),
            d.bounded_by(32 * inputs@.len() as int),
    {
        let gr: &Vec<Grad> = self.grads.as_ref().unwrap();
        let outs: &Vec<u32> = self.outputs.as_ref().unwrap();
        self.data.compute_deltas(gr, outs, inputs)
    }

    /// Append the delta tables of this node and of every node below it,
    /// in root-first order, to `scores`.
    fn compute_scores(&mut self, inputs: &Vec<Vec<u32>>, scores: &mut Scores)
        requires
            1 <= inputs@.len() <= MAX_EXAMPLES,
            forall|k: int| 0 <= k < inputs@.len() ==> (#[trigger] inputs@[k])@.len()
                == inputs@[0]@.len(),
            wf_shape(*old(self), inputs@[0]@.len() as nat),
            out_ok(*old(self), inputs@),
            out_full(*old(self), inputs@.len()),
            out_closed(*old(self)),
            grads_full(*old(self), inputs@),
            old(scores).values@.len() + size_spec(*old(self)) <= usize::MAX,
        ensures
            *final(self) == *old(self),
            final(scores).values@.len() == old(scores).values@.len() + size_spec(*old(self)),
            final(scores).values@.subrange(0, old(scores).values@.len() as int) == old(
                scores,
            ).values@,
            scores_match(
                final(scores).values@.skip(old(scores).values@.len() as int),
                *old(self),
                inputs@,
                inputs@[0]@.len() as int,
            ),
        decreases *old(self),
    {
        let ghost base = old(scores).values@.len() as int;
        let d = self.compute_deltas(inputs);
        let id = self.id;
        scores.values.push((id, d));
        let ghost mid = scores.values@;
        match &mut self.data {
            NodeContent::Input(_) => {
                proof {
                    assert(scores.values@.subrange(0, base) =~= old(scores).values@);
                    assert(scores.values@.skip(base) =~= seq![(id, d)]);
                }
            },
            NodeContent::UnaryNode { child, .. } => {
                child.compute_scores(inputs, scores);
                proof {
                    assert(scores.values@.subrange(0, base + 1) =~= mid);
                    assert(scores.values@.subrange(0, base) =~= old(scores).values@);
                    let app = scores.values@.skip(base);
                    assert(app[0] == scores.values@[base]);
                    assert(scores.values@[base] == mid[base]);
                    assert(app.skip(1) =~= scores.values@.skip(base + 1));
                }
            },
            NodeContent::BinaryNode { left, right, .. } => {
                let ghost lsz = size_spec(**left) as int;
                left.compute_scores(inputs, scores);
                let ghost mid2 = scores.values@;
                right.compute_scores(inputs, scores);
                proof {
                    assert(scores.values@.subrange(0, base + 1 + lsz) =~= mid2);
                    assert(mid2.subrange(0, base + 1) =~= mid);
                    assert(scores.values@.subrange(0, base + 1) =~= mid);
                    assert(scores.values@.subrange(0, base) =~= old(scores).values@);
                    let app = scores.values@.skip(base);
                    assert(app[0] == scores.values@[base]);
                    assert(scores.values@[base] == mid[base]);
                    assert(app.subrange(1, 1 + lsz) =~= mid2.skip(base + 1));
                    assert(app.subrange(1 + lsz, app.len() as int) =~= scores.values@.skip(
                        base + 1 + lsz,
                    ));
                }
            },
        }
    }

    /// Run a forward and a backward pass against the problem's targets —
    /// planting the root sensitivity (influence all ones, target the
    /// example's target word) — and collect the delta table of every
    /// node, keyed by node id, in root-first order.
    #[verifier::loop_isolation(false)]
    pub fn get_scores(&mut self, instance: &Instance) -> (scores: Scores)
        requires
            exists|n_inputs: nat| instance.wf(n_inputs) && wf_shape(*old(self), n_inputs),
            out_ok(*old(self), instance.inputs@),
            out_closed(*old(self)),
            grads_none(*old(self)),
            size_spec(*old(self)) <= usize::MAX,
        ensures
            same_gates(*old(self), *final(self)),
            out_full(*final(self), instance.inputs@.len()),
            out_ok(*final(self), instance.inputs@),
            out_closed(*final(self)),
            grads_full(*final(self), instance.inputs@),
            sg(*final(self)) == root_grads(instance.outputs@),
            scores_match(
                scores.values@,
                *final(self),
                instance.inputs@,
                instance.inputs@[0]@.len() as int,
            ),
            scores.values@.len() == size_spec(*old(self)),
    {
        proof {
            let n_inputs = choose|n_inputs: nat|
                instance.wf(n_inputs) && wf_shape(*old(self), n_inputs);
            lemma_wf_shape_compat(*old(self), instance.inputs@, n_inputs);
        }
        let mut gs: Vec<Grad> = Vec::new();
        let mut k: usize = 0;
        let n = instance.outputs.len();
        while k < n
            invariant
                k <= n,
                gs@.len() == k,
                forall|j: int| 0 <= j < k ==> gs@[j] == root_grad(instance.outputs@[j]),
            decreases n - k,
        {
            gs.push(Grad { influence: 0xffff_ffffu32, target: instance.outputs[k] });
            k = k + 1;
        }
        let _ = self.forward(&instance.inputs);
        let ghost f1 = *self;
        proof {
            lemma_eq_but_outs_grads(*old(self), f1, instance.inputs@);
        }
        self.backward(gs);
        let ghost f2 = *self;
        proof {
            assert(out_ok(f1, instance.inputs@));
            lemma_eq_but_grads_out(f1, f2, instance.inputs@, instance.inputs@.len());
            lemma_same_gates_trans(*old(self), f1, f2);
            let n_inputs = choose|n_inputs: nat|
                instance.wf(n_inputs) && wf_shape(*old(self), n_inputs);
            lemma_same_gates_struct(
                *old(self),
                f2,
                n_inputs,
                0,
                instance.inputs@,
            );
            assert(instance.inputs@[0]@.len() == n_inputs);
            assert(gs@ =~= Seq::new(
                instance.outputs@.len(),
                |j: int| root_grad(instance.outputs@[j]),
            ));
        }
        let mut scores = Scores::new();
        self.compute_scores(&instance.inputs, &mut scores);
        proof {
            assert(scores.values@.skip(0) =~= scores.values@);
        }
        scores
    }
}

/// The replacement gate is within the family that the tree's shape
/// invariant allows.
pub open spec fn op_wf(op: Op, n_inputs: int) -> bool {
    match op {
        Op::Input(j) => (j as int) < n_inputs,
        Op::Unary(u) => u.wf(),
        Op::Binary(_) => true,
    }
}

/// Every delta table of a matching score list is bounded by `32` per
/// example.
pub proof fn lemma_scores_bounded(
    entries: Seq<(usize, Deltas)>,
    n: Node,
    rows: Seq<Vec<u32>>,
    n_inputs: int,
)
    requires
        scores_match(entries, n, rows, n_inputs),
    ensures
        forall|e: int| 0 <= e < entries.len() ==> (#[trigger] entries[e]).1.bounded_by(
            32 * rows.len() as int,
        ),
    decreases n,
{
    match n.data {
        NodeContent::Input(_) => {},
        NodeContent::UnaryNode { child, .. } => {
            lemma_scores_bounded(entries.skip(1), *child, rows, n_inputs);
            assert forall|e: int| 0 <= e < entries.len() implies (#[trigger] entries[e]).1.bounded_by(
                32 * rows.len() as int,
            ) by {
                if e >= 1 {
                    assert(entries[e] == entries.skip(1)[e - 1]);
                }
            }
        },
        NodeContent::BinaryNode { left, right, .. } => {
            let lsz = size_spec(*left) as int;
            lemma_scores_bounded(entries.subrange(1, 1 + lsz), *left, rows, n_inputs);
            lemma_scores_bounded(
                entries.subrange(1 + lsz, entries.len() as int),
                *right,
                rows,
                n_inputs,
            );
            assert forall|e: int| 0 <= e < entries.len() implies (#[trigger] entries[e]).1.bounded_by(
                32 * rows.len() as int,
            ) by {
                if 1 <= e < 1 + lsz {
                    assert(entries[e] == entries.subrange(1, 1 + lsz)[e - 1]);
                } else if e >= 1 + lsz {
                    assert(entries[e] == entries.subrange(1 + lsz, entries.len() as int)[e - 1
                        - lsz]);
                }
            }
        },
    }
}

/// Any move drawn from a matching score list addresses an existing node
/// of the tree, by the path its id encodes, with a gate of that node's
/// kind and family: applying it cannot fail.
pub proof fn lemma_scores_move_valid(
    entries: Seq<(usize, Deltas)>,
    n: Node,
    rows: Seq<Vec<u32>>,
    n_inputs: int,
    idv: usize,
    op: Op,
    rid: nat,
) -> (p: Seq<Move>)
    requires
        scores_match(entries, n, rows, n_inputs),
        wf_ids(n, rid),
        rid >= 1,
        crate::grad::has_move(entries, idv, op),
    ensures
        path_of(idv as nat) == path_of(rid) + p,
        valid_target(n, p, op),
        op_wf(op, n_inputs),
        idv >= 1,
    decreases n,
{
    let (e, t) = choose|e: int, t: int|
        0 <= e < entries.len() && 0 <= t < entries[e].1.num_candidates() && entries[e].0 == idv
            && #[trigger] crate::grad::candidate_at(#[trigger] entries[e].1, t) == op;
    if e == 0 {
        assert(idv == n.id && n.id == rid);
        assert(path_of(rid) + Seq::<Move>::empty() =~= path_of(rid));
        Seq::<Move>::empty()
    } else {
        match n.data {
            NodeContent::Input(_) => {
                assert(false);
                Seq::<Move>::empty()
            },
            NodeContent::UnaryNode { child, .. } => {
                let sub = entries.skip(1);
                assert(sub[e - 1] == entries[e]);
                assert(crate::grad::candidate_at(sub[e - 1].1, t) == op);
                assert(crate::grad::has_move(sub, idv, op));
                let p2 = lemma_scores_move_valid(sub, *child, rows, n_inputs, idv, op, 2 * rid);
                let p = seq![Move::Left] + p2;
                assert(path_of(2 * rid) == path_of(rid).push(Move::Left));
                assert(path_of(idv as nat) =~= path_of(rid) + p);
                assert(p.skip(1) =~= p2);
                p
            },
            NodeContent::BinaryNode { left, right, .. } => {
                let lsz = size_spec(*left) as int;
                if e < 1 + lsz {
                    let sub = entries.subrange(1, 1 + lsz);
                    assert(sub[e - 1] == entries[e]);
                    assert(crate::grad::candidate_at(sub[e - 1].1, t) == op);
                    assert(crate::grad::has_move(sub, idv, op));
                    let p2 = lemma_scores_move_valid(sub, *left, rows, n_inputs, idv, op, 2 * rid);
                    let p = seq![Move::Left] + p2;
                    assert(path_of(2 * rid) == path_of(rid).push(Move::Left));
                    assert(path_of(idv as nat) =~= path_of(rid) + p);
                    assert(p.skip(1) =~= p2);
                    p
                } else {
                    let sub = entries.subrange(1 + lsz, entries.len() as int);
                    assert(sub[e - 1 - lsz] == entries[e]);
                    assert(crate::grad::candidate_at(sub[e - 1 - lsz].1, t) == op);
                    assert(crate::grad::has_move(sub, idv, op));
                    let p2 = lemma_scores_move_valid(
                        sub,
                        *right,
                        rows,
                        n_inputs,
                        idv,
                        op,
                        2 * rid + 1,
                    );
                    let p = seq![Move::Right] + p2;
                    assert(path_of(2 * rid + 1) == path_of(rid).push(Move::Right));
                    assert(path_of(idv as nat) =~= path_of(rid) + p);
                    assert(p.skip(1) =~= p2);
                    p
                }
            },
        }
    }
}

/// A gate replacement with a gate of the right family preserves the
/// shape invariant, the id scheme and the size of the tree.
pub proof fn lemma_gates_replaced_facts(
    a: Node,
    b: Node,
    p: Seq<Move>,
    op: Op,
    n_inputs: int,
    rid: nat,
)
    requires
        gates_replaced(a, b, p, op),
        wf_shape(a, n_inputs as nat),
        wf_ids(a, rid),
        op_wf(op, n_inputs),
        n_inputs >= 0,
    ensures
        wf_shape(b, n_inputs as nat),
        wf_ids(b, rid),
        size_spec(b) == size_spec(a),
    decreases p.len(),
{
    if p.len() == 0 {
        match (a.data, b.data) {
            (
                NodeContent::UnaryNode { child: c1, .. },
                NodeContent::UnaryNode { child: c2, .. },
            ) => {
                lemma_same_gates_struct(*c1, *c2, n_inputs as nat, 2 * rid, Seq::empty());
            },
            (
                NodeContent::BinaryNode { left: l1, right: r1, .. },
                NodeContent::BinaryNode { left: l2, right: r2, .. },
            ) => {
                lemma_same_gates_struct(*l1, *l2, n_inputs as nat, 2 * rid, Seq::empty());
                lemma_same_gates_struct(*r1, *r2, n_inputs as nat, 2 * rid + 1, Seq::empty());
            },
            _ => {},
        }
    } else {
        match (a.data, b.data) {
            (
                NodeContent::UnaryNode { child: c1, .. },
                NodeContent::UnaryNode { child: c2, .. },
            ) => {
                lemma_gates_replaced_facts(*c1, *c2, p.skip(1), op, n_inputs, 2 * rid);
            },
            (
                NodeContent::BinaryNode { left: l1, right: r1, .. },
                NodeContent::BinaryNode { left: l2, right: r2, .. },
            ) => {
                if p[0] == Move::Left {
                    lemma_gates_replaced_facts(*l1, *l2, p.skip(1), op, n_inputs, 2 * rid);
                    lemma_same_gates_struct(*r1, *r2, n_inputs as nat, 2 * rid + 1, Seq::empty());
                } else {
                    lemma_same_gates_struct(*l1, *l2, n_inputs as nat, 2 * rid, Seq::empty());
                    lemma_gates_replaced_facts(*r1, *r2, p.skip(1), op, n_inputs, 2 * rid + 1);
                }
            },
            _ => {},
        }
    }
}

// ---------------------------------------------------------------------
// Generation and scoring.
// ---------------------------------------------------------------------

impl Node {
    /// A node with the given id and gate and no memoized values.
    pub fn new(id: usize, data: NodeContent) -> (r: Node)
        requires
            id >= 1,
        ensures
            r.id == id,
            r.data == data,
            r.outputs is None,
            r.grads is None,
    {
        Node { id, data, outputs: None, grads: None }
    }

    /// A random tree of exactly `size` nodes rooted at `id`: a leaf picks
    /// one of the inputs; otherwise, with probability 1/4 (or when only
    /// two nodes are left) a unary gate over the rest, else a binary gate
    /// over a uniformly split pair of subtrees.
    pub fn random(n_inputs: usize, size: usize, id: usize, rng: &mut rand::rngs::StdRng) -> (r:
        Node)
        requires
            n_inputs >= 1,
            size >= 1,
            id >= 1,
            (id + 1) * vstd::arithmetic::power2::pow2(size as nat) <= usize::MAX as nat + 1,
        ensures
            wf_ids(r, id as nat),
            wf_shape(r, n_inputs as nat),
            size_spec(r) == size,
            fresh(r),
        decreases size,
    {
        proof {
            vstd::arithmetic::power2::lemma_pow2_pos(size as nat);
        }
        if size == 1 {
            let idx = rng_below(rng, n_inputs);
            Node { id, data: NodeContent::Input(idx), outputs: None, grads: None }
        } else {
            proof {
                vstd::arithmetic::power2::lemma_pow2_unfold(size as nat);
                vstd::arithmetic::power2::lemma_pow2_pos((size - 1) as nat);
                let p = vstd::arithmetic::power2::pow2((size - 1) as nat);
                assert(2 * id + 2 <= usize::MAX as nat + 1 && (2 * id + 2) * p <= usize::MAX as nat
                    + 1 && (2 * id + 1) * p <= usize::MAX as nat + 1) by (nonlinear_arith)
                    requires
                        (id + 1) * (2 * p) <= usize::MAX as nat + 1,
                        p >= 1,
                        id >= 1,
                ;
            }
            let is_unary = rng_coin(rng, 1, 4) || size == 2;
            if is_unary {
                let child = Self::random(n_inputs, size - 1, 2 * id, rng);
                let op = UnaryOp::random(rng);
                Node {
                    id,
                    data: NodeContent::UnaryNode { op, child: Box::new(child) },
                    outputs: None,
                    grads: None,
                }
            } else {
                let left_size = 1 + rng_below(rng, size - 2);
                let right_size = size - 1 - left_size;
                proof {
                    let p = vstd::arithmetic::power2::pow2((size - 1) as nat);
                    let pl = vstd::arithmetic::power2::pow2(left_size as nat);
                    let pr = vstd::arithmetic::power2::pow2(right_size as nat);
                    vstd::arithmetic::power2::lemma_pow2_pos(left_size as nat);
                    vstd::arithmetic::power2::lemma_pow2_pos(right_size as nat);
                    if left_size < size - 1 {
                        vstd::arithmetic::power2::lemma_pow2_strictly_increases(
                            left_size as nat,
                            (size - 1) as nat,
                        );
                    }
                    if right_size < size - 1 {
                        vstd::arithmetic::power2::lemma_pow2_strictly_increases(
                            right_size as nat,
                            (size - 1) as nat,
                        );
                    }
                    assert((2 * id + 1) * pl <= usize::MAX as nat + 1 && (2 * id + 2) * pr
                        <= usize::MAX as nat + 1) by (nonlinear_arith)
                        requires
                            (2 * id + 2) * p <= usize::MAX as nat + 1,
                            pl <= p,
                            pr <= p,
                            pl >= 1,
                            pr >= 1,
                            p >= 1,
                            id >= 1,
                    ;
                }
                let left = Self::random(n_inputs, left_size, 2 * id, rng);
                let right = Self::random(n_inputs, right_size, 2 * id + 1, rng);
                let op = BinaryOp::random(rng);
                Node {
                    id,
                    data: NodeContent::BinaryNode {
                        op,
                        left: Box::new(left),
                        right: Box::new(right),
                    },
                    outputs: None,
                    grads: None,
                }
            }
        }
    }

    /// Draw `n_examples` random input rows and evaluate the tree on them:
    /// a synthesis problem whose hidden reference circuit is this tree.
    #[verifier::loop_isolation(false)]
    pub fn to_instance(&mut self, n_inputs: usize, n_examples: usize, rng: &mut rand::rngs::StdRng)
        -> (r: (Vec<Vec<u32>>, Vec<u32>))
        requires
            wf_shape(*old(self), n_inputs as nat),
            fresh(*old(self)),
        ensures
            r.0@.len() == n_examples,
            forall|k: int| 0 <= k < n_examples ==> (#[trigger] r.0@[k])@.len() == n_inputs,
            r.1@.len() == n_examples,
            forall|k: int| 0 <= k < n_examples ==> r.1@[k] == eval(*old(self), r.0@[k]),
    {
        let mut rows: Vec<Vec<u32>> = Vec::new();
        let mut e: usize = 0;
        while e < n_examples
            invariant
                e <= n_examples,
                rows@.len() == e,
                forall|k: int| 0 <= k < e ==> (#[trigger] rows@[k])@.len() == n_inputs,
            decreases n_examples - e,
        {
            let mut row: Vec<u32> = Vec::new();
            let mut j: usize = 0;
            while j < n_inputs
                invariant
                    j <= n_inputs,
                    row@.len() == j,
                decreases n_inputs - j,
            {
                row.push(rng_word(rng));
                j = j + 1;
            }
            rows.push(row);
            e = e + 1;
        }
        proof {
            lemma_fresh_facts(*old(self), rows@);
            lemma_wf_shape_compat(*old(self), rows@, n_inputs as nat);
        }
        let outs = self.forward(&rows);
        (rows, outs)
    }

    /// Score numerator of the tree against the problem's targets: the
    /// number of matching output bits, summed over all examples. The
    /// quality of the tree is this value over `32 * example_count`; the
    /// solver's success test is quality at least 99/100.
    #[verifier::loop_isolation(false)]
    pub fn current_score(&mut self, instance: &Instance) -> (r: u64)
        requires
            exists|n_inputs: nat| instance.wf(n_inputs) && wf_shape(*old(self), n_inputs),
            out_ok(*old(self), instance.inputs@),
            out_closed(*old(self)),
        ensures
            eq_but_outs(*old(self), *final(self)),
            out_full(*final(self), instance.inputs@.len()),
            out_ok(*final(self), instance.inputs@),
            out_closed(*final(self)),
            r == score_num(*old(self), instance.inputs@, instance.outputs@),
            r <= 32 * instance.inputs@.len(),
    {
        proof {
            let n_inputs = choose|n_inputs: nat|
                instance.wf(n_inputs) && wf_shape(*old(self), n_inputs);
            lemma_wf_shape_compat(*old(self), instance.inputs@, n_inputs);
        }
        let outs = self.forward(&instance.inputs);
        let n = instance.outputs.len();
        let mut sum: u64 = 0;
        let mut k: usize = 0;
        while k < n
            invariant
                k <= n,
                sum == score_upto(*old(self), instance.inputs@, instance.outputs@, k as int),
                sum <= 32 * k,
            decreases n - k,
        {
            let x = outs[k];
            let y = instance.outputs[k];
            proof {
                lemma_pc_not(x ^ y);
                lemma_pc_le_32(x ^ y);
            }
            let m = popcount(!(x ^ y));
            sum = sum + m as u64;
            k = k + 1;
        }
        proof {
            lemma_score_bounds(*old(self), instance.inputs@, instance.outputs@, n as int);
        }
        sum
    }
}

} // verus!
