//! Binary gates: bitwise conjunction, disjunction and exclusive or.

use vstd::prelude::*;

use crate::grad::Grad;

verus! {

/// A gate with two operands.
#[derive(Debug, Clone, Copy, PartialEq, Eq, Structural)]
pub enum BinaryOp {
    And,
    Or,
    Xor,
}

impl BinaryOp {
    /// Forward transfer function of this operator.
    pub open spec fn apply_spec(self, x: u32, y: u32) -> u32 {
        match self {
            BinaryOp::And => x & y,
            BinaryOp::Or => x | y,
            BinaryOp::Xor => x ^ y,
        }
    }

    /// Backward transfer function toward the left operand, given the
    /// other operand's value `y`. An `And` can only pass a mismatch where
    /// `y` has a set bit, an `Or` only where `y` has a clear bit, and a
    /// `Xor` passes everything but compensates the pattern by `y`.
    pub open spec fn grad_x_spec(self, g: Grad, y: u32) -> Grad {
        match self {
            BinaryOp::And => Grad { influence: g.influence & y, target: g.target },
            BinaryOp::Or => Grad { influence: g.influence & !y, target: g.target },
            BinaryOp::Xor => Grad { influence: g.influence, target: g.target ^ y },
        }
    }

    /// Backward transfer function toward the right operand, given the
    /// other operand's value `x`. The gates are symmetric, so the rule is
    /// the same as for the left operand.
    pub open spec fn grad_y_spec(self, g: Grad, x: u32) -> Grad {
        self.grad_x_spec(g, x)
    }

    pub fn apply(&self, x: u32, y: u32) -> (r: u32)
        ensures
            r == self.apply_spec(x, y),
    {
        match self {
            BinaryOp::And => x & y,
            BinaryOp::Or => x | y,
            BinaryOp::Xor => x ^ y,
        }
    }

    pub fn grad_x(&self, g: Grad, y: u32) -> (r: Grad)
        ensures
            r == self.grad_x_spec(g, y),
    {
        match self {
            BinaryOp::And => Grad { influence: g.influence & y, target: g.target },
            BinaryOp::Or => Grad { influence: g.influence & !y, target: g.target },
            BinaryOp::Xor => Grad { influence: g.influence, target: g.target ^ y },
        }
    }

    pub fn grad_y(&self, g: Grad, x: u32) -> (r: Grad)
        ensures
            r == self.grad_y_spec(g, x),
    {
        self.grad_x(g, x)
    }
}

/// The binary family laid out as one sequence.
pub open spec fn binary_family_at(i: int) -> BinaryOp {
    if i == 0 {
        BinaryOp::And
    } else if i == 1 {
        BinaryOp::Or
    } else {
        BinaryOp::Xor
    }
}

/// Position of a binary gate in the family sequence.
pub open spec fn binary_index_of(op: BinaryOp) -> int {
    match op {
        BinaryOp::And => 0,
        BinaryOp::Or => 1,
        BinaryOp::Xor => 2,
    }
}

/// The family member at position `i`.
pub fn binary_at(i: usize) -> (r: BinaryOp)
    requires
        i < 3,
    ensures
        r == binary_family_at(i as int),
        binary_index_of(r) == i,
{
    if i == 0 {
        BinaryOp::And
    } else if i == 1 {
        BinaryOp::Or
    } else {
        BinaryOp::Xor
    }
}

/// Position of a binary gate in the family sequence, executable form.
pub fn binary_index(op: &BinaryOp) -> (r: usize)
    ensures
        r == binary_index_of(*op),
        r < 3,
        binary_family_at(r as int) == *op,
{
    match op {
        BinaryOp::And => 0,
        BinaryOp::Or => 1,
        BinaryOp::Xor => 2,
    }
}

impl BinaryOp {
    /// A gate drawn uniformly from the binary family.
    pub fn random(rng: &mut rand::rngs::StdRng) -> BinaryOp {
        let kind = crate::rng::rng_below(rng, 3);
        if kind == 0 {
            BinaryOp::And
        } else if kind == 1 {
            BinaryOp::Or
        } else {
            BinaryOp::Xor
        }
    }
}

/// Walks the binary family in order, skipping one unwanted gate: the
/// candidate alternatives of a node that currently holds `unwanted_op`.
pub struct BinaryOpIntoIterator {
    pub unwanted_op: BinaryOp,
    pub index: usize,
}

impl BinaryOp {
    /// Iterator over every binary gate other than `self`.
    pub fn into_iter(self) -> (it: BinaryOpIntoIterator)
        ensures
            it.unwanted_op == self,
            it.index == 0,
    {
        BinaryOpIntoIterator { unwanted_op: self, index: 0 }
    }
}

impl BinaryOpIntoIterator {
    /// Next position that may be yielded from `i`: one past `i` when `i`
    /// holds the unwanted gate.
    pub open spec fn skip_from(self, i: int) -> int {
        if 0 <= i < 3 && binary_family_at(i) == self.unwanted_op {
            i + 1
        } else {
            i
        }
    }

    pub fn next(&mut self) -> (r: Option<BinaryOp>)
        ensures
            final(self).unwanted_op == old(self).unwanted_op,
            ({
                let j = old(self).skip_from(old(self).index as int);
                if j < 3 {
                    r == Some(binary_family_at(j)) && final(self).index == j + 1
                } else {
                    // Exhausted, and exhausted it stays: the position no
                    // longer moves, so every later call yields nothing.
                    r is None && final(self).index == j
                }
            }),
            r is Some ==> r.unwrap() != old(self).unwanted_op,
    {
        let mut i = self.index;
        if i < 3 && binary_at(i) == self.unwanted_op {
            i = i + 1;
        }
        if i < 3 {
            let op = binary_at(i);
            self.index = i + 1;
            Some(op)
        } else {
            self.index = i;
            None
        }
    }
}

} // verus!
