//! Sensitivity pairs, the per-word quality measure `psi`, the per-node
//! delta tables and the softmax move selector.

use vstd::prelude::*;

use crate::binary::BinaryOp;
use crate::bits::{lemma_pc_not, matching_bits, pc, popcount};
use crate::unary::UnaryOp;

verus! {

/// Sensitivity of one subexpression for one example: `influence` marks the
/// bit positions of the subexpression's output that still matter to the
/// objective, `target` the pattern those positions should equal.
#[derive(Debug, Clone, Copy, PartialEq, Eq, Structural)]
pub struct Grad {
    pub influence: u32,
    pub target: u32,
}

/// The sensitivity planted at the root: every bit matters and should
/// equal the example's target word.
pub open spec fn root_grad(t: u32) -> Grad {
    Grad { influence: 0xffff_ffffu32, target: t }
}

/// Quality numerator of a word under a sensitivity: the number of
/// influenced bit positions where the word already matches the pattern.
/// The quality of a word is this value over `32 * example_count`.
pub open spec fn psi_n(x: u32, g: Grad) -> nat {
    pc(!(x ^ g.target) & g.influence)
}

/// Under the root sensitivity, the quality numerator of a word counts
/// exactly its bits that match the target word.
pub proof fn lemma_psi_full(x: u32, t: u32)
    ensures
        psi_n(x, root_grad(t)) == matching_bits(x, t),
{
    assert((!(x ^ t) & 0xffff_ffffu32) == !(x ^ t)) by (bit_vector);
    lemma_pc_not(x ^ t);
}

/// Quality numerator, executable form.
pub fn psi(x: u32, g: Grad) -> (r: u32)
    ensures
        r == psi_n(x, g),
        r <= 32,
{
    popcount(!(x ^ g.target) & g.influence)
}

/// The alternative-configuration table of one node: for every candidate
/// replacement of the node's gate (or input index), the exact change of
/// the score numerator that the replacement would cause, with the rest of
/// the tree unchanged. The change of the quality itself is this value
/// over `32 * example_count`.
pub enum Deltas {
    Input(Vec<(usize, i64)>),
    Unary(Vec<(UnaryOp, i64)>),
    Binary(Vec<(BinaryOp, i64)>),
}

impl Deltas {
    /// Number of candidates in the table.
    pub open spec fn num_candidates(self) -> nat {
        match self {
            Deltas::Input(v) => v@.len(),
            Deltas::Unary(v) => v@.len(),
            Deltas::Binary(v) => v@.len(),
        }
    }

    /// Every candidate's delta lies within `bound`.
    pub open spec fn bounded_by(self, bound: int) -> bool {
        match self {
            Deltas::Input(v) => forall|t: int| 0 <= t < v@.len() ==> -bound <= (#[trigger] v@[t]).1
                <= bound,
            Deltas::Unary(v) => forall|t: int| 0 <= t < v@.len() ==> -bound <= (#[trigger] v@[t]).1
                <= bound,
            Deltas::Binary(v) => forall|t: int| 0 <= t < v@.len() ==> -bound <= (#[trigger] v@[t]).1
                <= bound,
        }
    }
}

/// The delta tables of every node of a tree, keyed by node id. Rebuilt
/// from scratch at every solver iteration.
pub struct Scores {
    pub values: Vec<(usize, Deltas)>,
}

impl Scores {
    pub fn new() -> (s: Scores)
        ensures
            s.values@.len() == 0,
    {
        Scores { values: Vec::new() }
    }
}

/// The candidate at position `t` of a delta table, as a replacement gate.
pub open spec fn candidate_at(d: Deltas, t: int) -> crate::formula::Op {
    match d {
        Deltas::Input(v) => crate::formula::Op::Input(v@[t].0),
        Deltas::Unary(v) => crate::formula::Op::Unary(v@[t].0),
        Deltas::Binary(v) => crate::formula::Op::Binary(v@[t].0),
    }
}

/// Number of candidate moves among the first `e` entries.
pub open spec fn num_moves_upto(values: Seq<(usize, Deltas)>, e: int) -> nat
    decreases e,
{
    if e <= 0 {
        0
    } else {
        num_moves_upto(values, e - 1) + values[e - 1].1.num_candidates()
    }
}

/// Number of candidate moves pooled over all entries.
pub open spec fn num_moves(values: Seq<(usize, Deltas)>) -> nat {
    num_moves_upto(values, values.len() as int)
}

/// The pair `(idv, op)` is one of the pooled candidate moves.
pub open spec fn has_move(
    values: Seq<(usize, Deltas)>,
    idv: usize,
    op: crate::formula::Op,
) -> bool {
    exists|e: int, t: int|
        0 <= e < values.len() && 0 <= t < values[e].1.num_candidates() && values[e].0 == idv
            && #[trigger] candidate_at(#[trigger] values[e].1, t) == op
}

/// One multiplicative factor of the fixed-point exponential: the value
/// `2^32 * exp(-2^(i-16))`, rounded.
fn expw_factor(i: usize) -> (r: u64)
    ensures
        r < 0x1_0000_0000,
{
    match i {
        0 => 0xffff_0000,
        1 => 0xfffe_0002,
        2 => 0xfffc_0008,
        3 => 0xfff8_0020,
        4 => 0xfff0_0080,
        5 => 0xffe0_0200,
        6 => 0xffc0_07ff,
        7 => 0xff80_1ffb,
        8 => 0xff00_7fd5,
        9 => 0xfe01_feab,
        10 => 0xfc07_f560,
        11 => 0xf81f_ab54,
        12 => 0xf07d_5fde,
        13 => 0xe1eb_5127,
        14 => 0xc75f_7cf5,
        15 => 0x9b45_97e3,
        16 => 0x5e2d_58d9,
        17 => 0x22a5_5547,
        18 => 0x04b0_556e,
        19 => 0x0015_fc21,
        20 => 0x0000_01e3,
        _ => 0,
    }
}

/// Fixed-point `2^32 * exp(-y / 65536)`, by binary decomposition of the
/// exponent. The result never exceeds `2^32`, and a zero exponent gives
/// exactly `2^32`: the best candidate always keeps full weight.
fn expw(y: u64) -> (w: u64)
    ensures
        w <= 0x1_0000_0000,
        y == 0 ==> w == 0x1_0000_0000,
{
    if y >= 0x20_0000 {
        return 0;
    }
    let mut acc: u64 = 0x1_0000_0000;
    let mut i: usize = 0;
    while i < 21
        invariant
            i <= 21,
            acc <= 0x1_0000_0000,
            y == 0 ==> acc == 0x1_0000_0000,
        decreases 21 - i,
    {
        if (y >> (i as u32)) & 1 == 1 {
            proof {
                assert(y != 0) by (bit_vector)
                    requires
                        (y >> (i as u32)) & 1 == 1u64,
                ;
            }
            let c = expw_factor(i);
            proof {
                assert((acc as u128) * (c as u128) <= 0x1_0000_0000u128 * 0xffff_ffffu128)
                    by (nonlinear_arith)
                    requires
                        acc <= 0x1_0000_0000u64,
                        c < 0x1_0000_0000u64,
                ;
            }
            let p: u128 = (acc as u128) * (c as u128);
            proof {
                assert((p >> 32) == p / 0x1_0000_0000) by (bit_vector);
            }
            acc = (p >> 32) as u64;
        }
        i = i + 1;
    }
    acc
}

impl Scores {
    /// Pool every (node id, candidate) pair of every table into one
    /// distribution with weight `exp(tau * delta / (32 * n_examples))` —
    /// `tau` in thousandths — and draw one pair. Weights are computed in
    /// fixed point relative to the best candidate, whose weight never
    /// underflows, so a draw fails only when there is no candidate at
    /// all: one single-node circuit over one single input has no
    /// alternative.
    #[verifier::loop_isolation(false)]
    pub fn softmax(&self, tau: u64, n_examples: usize, rng: &mut rand::rngs::StdRng) -> (r: Option<
        (usize, crate::formula::Op),
    >)
        requires
            n_examples >= 1,
            forall|e: int| 0 <= e < self.values@.len() ==> (#[trigger] self.values@[e]).1.bounded_by(
                32 * n_examples as int,
            ),
            n_examples <= crate::solving::MAX_EXAMPLES,
        ensures
            r is Some <==> num_moves(self.values@) > 0,
            r matches Some((idv, op)) ==> has_move(self.values@, idv, op),
    {
        let ghost values = self.values@;
        let mut moves: Vec<(usize, crate::formula::Op, i64)> = Vec::new();
        let mut e: usize = 0;
        while e < self.values.len()
            invariant
                e <= values.len(),
                moves@.len() == num_moves_upto(values, e as int),
                forall|x: int| 0 <= x < moves@.len() ==> has_move(
                    values,
                    (#[trigger] moves@[x]).0,
                    moves@[x].1,
                ) && -32 * (n_examples as int) <= moves@[x].2 <= 32 * (n_examples as int),
            decreases values.len() - e,
        {
            let entry = &self.values[e];
            let idv: usize = entry.0;
            match &entry.1 {
                Deltas::Input(v) => {
                    let mut t: usize = 0;
                    while t < v.len()
                        invariant
                            t <= v@.len(),
                            moves@.len() == num_moves_upto(values, e as int) + t,
                            forall|x: int| 0 <= x < moves@.len() ==> has_move(
                                values,
                                (#[trigger] moves@[x]).0,
                                moves@[x].1,
                            ) && -32 * (n_examples as int) <= moves@[x].2 <= 32 * (
                            n_examples as int),
                        decreases v@.len() - t,
                    {
                        proof {
                            assert(candidate_at(values[e as int].1, t as int)
                                == crate::formula::Op::Input(v@[t as int].0));
                            assert(values[e as int].1.bounded_by(32 * n_examples as int));
                        }
                        moves.push((idv, crate::formula::Op::Input(v[t].0), v[t].1));
                        t = t + 1;
                    }
                },
                Deltas::Unary(v) => {
                    let mut t: usize = 0;
                    while t < v.len()
                        invariant
                            t <= v@.len(),
                            moves@.len() == num_moves_upto(values, e as int) + t,
                            forall|x: int| 0 <= x < moves@.len() ==> has_move(
                                values,
                                (#[trigger] moves@[x]).0,
                                moves@[x].1,
                            ) && -32 * (n_examples as int) <= moves@[x].2 <= 32 * (
                            n_examples as int),
                        decreases v@.len() - t,
                    {
                        proof {
                            assert(candidate_at(values[e as int].1, t as int)
                                == crate::formula::Op::Unary(v@[t as int].0));
                            assert(values[e as int].1.bounded_by(32 * n_examples as int));
                        }
                        moves.push((idv, crate::formula::Op::Unary(v[t].0), v[t].1));
                        t = t + 1;
                    }
                },
                Deltas::Binary(v) => {
                    let mut t: usize = 0;
                    while t < v.len()
                        invariant
                            t <= v@.len(),
                            moves@.len() == num_moves_upto(values, e as int) + t,
                            forall|x: int| 0 <= x < moves@.len() ==> has_move(
                                values,
                                (#[trigger] moves@[x]).0,
                                moves@[x].1,
                            ) && -32 * (n_examples as int) <= moves@[x].2 <= 32 * (
                            n_examples as int),
                        decreases v@.len() - t,
                    {
                        proof {
                            assert(candidate_at(values[e as int].1, t as int)
                                == crate::formula::Op::Binary(v@[t as int].0));
                            assert(values[e as int].1.bounded_by(32 * n_examples as int));
                        }
                        moves.push((idv, crate::formula::Op::Binary(v[t].0), v[t].1));
                        t = t + 1;
                    }
                },
            }
            e = e + 1;
        }
        if moves.len() == 0 {
            return None;
        }

        let mut dmax: i64 = moves[0].2;
        let mut wit: usize = 0;
        let mut x: usize = 1;
        while x < moves.len()
            invariant
                1 <= x <= moves@.len(),
                wit < x,
                moves@[wit as int].2 == dmax,
                forall|y: int| 0 <= y < x ==> (#[trigger] moves@[y]).2 <= dmax,
            decreases moves@.len() - x,
        {
            if moves[x].2 > dmax {
                dmax = moves[x].2;
                wit = x;
            }
            x = x + 1;
        }

        let mut weights: Vec<u64> = Vec::new();
        let mut total: u128 = 0;
        let mut x: usize = 0;
        while x < moves.len()
            invariant
                x <= moves@.len(),
                weights@.len() == x,
                forall|y: int| 0 <= y < x ==> (#[trigger] weights@[y]) <= 0x1_0000_0000,
                total <= (x as int) * 0x1_0000_0000,
                x > wit ==> total >= 0x1_0000_0000,
            decreases moves@.len() - x,
        {
            proof {
                assert(-32 * (n_examples as int) <= (moves@[x as int]).2 <= 32 * (
                n_examples as int));
                assert(-32 * (n_examples as int) <= (moves@[wit as int]).2 <= 32 * (
                n_examples as int));
            }
            let diff: i64 = dmax - moves[x].2;
            proof {
                assert((tau as u128) * (diff as u128) < 0x1_0000_0000_0000_0000_0000_0000u128)
                    by (nonlinear_arith)
                    requires
                        (tau as u128) < 0x1_0000_0000_0000_0000u128,
                        (diff as u128) <= 0x1_0000_0000u128,
                ;
            }
            let t1: u128 = (tau as u128) * (diff as u128);
            let t2: u128 = t1 * 65536;
            let y128: u128 = t2 / (32000 * (n_examples as u128));
            let y: u64 = if y128 >= 0x20_0000 {
                0x20_0000u64
            } else {
                y128 as u64
            };
            let w = expw(y);
            proof {
                if x == wit {
                    assert(diff == 0);
                    assert(t1 == 0) by (nonlinear_arith)
                        requires
                            t1 == (tau as u128) * (diff as u128),
                            diff == 0i64,
                    ;
                    assert(t2 == 0);
                    assert(32000 * (n_examples as u128) >= 32000);
                    assert(y128 == 0);
                }
            }
            weights.push(w);
            total = total + w as u128;
            x = x + 1;
        }

        let draw = crate::rng::rng_below_u128(rng, total);
        let mut cum: u128 = 0;
        let mut x: usize = 0;
        let last = moves.len() - 1;
        while x < last
            invariant
                x <= last,
                last == moves@.len() - 1,
                weights@.len() == moves@.len(),
                forall|y: int| 0 <= y < weights@.len() ==> (#[trigger] weights@[y])
                    <= 0x1_0000_0000,
                cum <= (x as int) * 0x1_0000_0000,
            decreases last - x,
        {
            let w = weights[x] as u128;
            if draw < cum + w {
                let mv = &moves[x];
                return Some((mv.0, mv.1));
            }
            cum = cum + w;
            x = x + 1;
        }
        let mv = &moves[last];
        Some((mv.0, mv.1))
    }
}

} // verus!
