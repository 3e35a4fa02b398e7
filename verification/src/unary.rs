//! Unary gates: bitwise complement and saturating shifts.

use vstd::prelude::*;

use crate::grad::Grad;

verus! {

/// A gate with one operand. Shift distances range over `0..=32`; a shift
/// by 32 saturates to zero.
#[derive(Debug, Clone, Copy, PartialEq, Eq, Structural)]
pub enum UnaryOp {
    Not,
    LeftShift(u32),
    RightShift(u32),
}

/// `x << k`, saturating to zero once every bit is shifted out.
pub open spec fn shl32(x: u32, k: u32) -> u32 {
    if k >= 32 {
        0
    } else {
        x << k
    }
}

/// `x >> k`, saturating to zero once every bit is shifted out.
pub open spec fn shr32(x: u32, k: u32) -> u32 {
    if k >= 32 {
        0
    } else {
        x >> k
    }
}

impl UnaryOp {
    /// A shift distance stays in the `0..=32` family.
    pub open spec fn wf(self) -> bool {
        match self {
            UnaryOp::Not => true,
            UnaryOp::LeftShift(k) => k <= 32,
            UnaryOp::RightShift(k) => k <= 32,
        }
    }

    /// Forward transfer function of this operator.
    pub open spec fn apply_spec(self, x: u32) -> u32 {
        match self {
            UnaryOp::Not => !x,
            UnaryOp::LeftShift(k) => shl32(x, k),
            UnaryOp::RightShift(k) => shr32(x, k),
        }
    }

    /// Backward transfer function: the sensitivity of the operand, given
    /// the sensitivity of this operator's output. A shift moves both mask and
    /// pattern the opposite way; complement flips the pattern and keeps
    /// the mask.
    pub open spec fn grad_spec(self, g: Grad) -> Grad {
        match self {
            UnaryOp::Not => Grad { influence: g.influence, target: !g.target },
            UnaryOp::LeftShift(k) => Grad {
                influence: shr32(g.influence, k),
                target: shr32(g.target, k),
            },
            UnaryOp::RightShift(k) => Grad {
                influence: shl32(g.influence, k),
                target: shl32(g.target, k),
            },
        }
    }

    pub fn apply(&self, x: u32) -> (r: u32)
        ensures
            r == self.apply_spec(x),
    {
        match self {
            UnaryOp::Not => !x,
            UnaryOp::LeftShift(k) => {
                if *k >= 32 {
                    0
                } else {
                    x << *k
                }
            },
            UnaryOp::RightShift(k) => {
                if *k >= 32 {
                    0
                } else {
                    x >> *k
                }
            },
        }
    }

    pub fn grad(&self, g: Grad) -> (r: Grad)
        ensures
            r == self.grad_spec(g),
    {
        match self {
            UnaryOp::Not => Grad { influence: g.influence, target: !g.target },
            UnaryOp::LeftShift(k) => {
                if *k >= 32 {
                    Grad { influence: 0, target: 0 }
                } else {
                    Grad { influence: g.influence >> *k, target: g.target >> *k }
                }
            },
            UnaryOp::RightShift(k) => {
                if *k >= 32 {
                    Grad { influence: 0, target: 0 }
                } else {
                    Grad { influence: g.influence << *k, target: g.target << *k }
                }
            },
        }
    }
}

/// The unary family laid out as one sequence.
pub open spec fn unary_family_at(i: int) -> UnaryOp {
    if i == 0 {
        UnaryOp::Not
    } else if i <= 33 {
        UnaryOp::LeftShift((i - 1) as u32)
    } else {
        UnaryOp::RightShift((i - 34) as u32)
    }
}

/// Position of a well-formed unary gate in the family sequence.
pub open spec fn unary_index_of(op: UnaryOp) -> int {
    match op {
        UnaryOp::Not => 0,
        UnaryOp::LeftShift(k) => 1 + k,
        UnaryOp::RightShift(k) => 34 + k,
    }
}

/// The family member at position `i`.
pub fn unary_at(i: usize) -> (r: UnaryOp)
    requires
        i < 67,
    ensures
        r == unary_family_at(i as int),
        r.wf(),
        unary_index_of(r) == i,
{
    if i == 0 {
        UnaryOp::Not
    } else if i <= 33 {
        UnaryOp::LeftShift((i - 1) as u32)
    } else {
        UnaryOp::RightShift((i - 34) as u32)
    }
}

/// Position of a well-formed unary gate in the family sequence,
/// executable form.
pub fn unary_index(op: &UnaryOp) -> (r: usize)
    requires
        op.wf(),
    ensures
        r == unary_index_of(*op),
        r < 67,
        unary_family_at(r as int) == *op,
{
    match op {
        UnaryOp::Not => 0,
        UnaryOp::LeftShift(k) => 1 + (*k as usize),
        UnaryOp::RightShift(k) => 34 + (*k as usize),
    }
}

/// Walks the unary family in order, skipping one unwanted gate: the
/// candidate alternatives of a node that currently holds `unwanted_op`.
pub struct UnaryOpIntoIterator {
    pub unwanted_op: UnaryOp,
    pub idx: usize,
}

impl UnaryOp {
    /// Iterator over every unary gate other than `self`.
    pub fn into_iter(self) -> (it: UnaryOpIntoIterator)
        ensures
            it.unwanted_op == self,
            it.idx == 0,
    {
        UnaryOpIntoIterator { unwanted_op: self, idx: 0 }
    }
}

impl UnaryOpIntoIterator {
    /// Next position that may be yielded from `i`: one past `i` when `i`
    /// holds the unwanted gate.
    pub open spec fn skip_from(self, i: int) -> int {
        if 0 <= i < 67 && unary_family_at(i) == self.unwanted_op {
            i + 1
        } else {
            i
        }
    }

    pub fn next(&mut self) -> (r: Option<UnaryOp>)
        ensures
            final(self).unwanted_op == old(self).unwanted_op,
            ({
                let j = old(self).skip_from(old(self).idx as int);
                if j < 67 {
                    r == Some(unary_family_at(j)) && final(self).idx == j + 1
                } else {
                    // Exhausted, and exhausted it stays: the position no
                    // longer moves, so every later call yields nothing.
                    r is None && final(self).idx == j
                }
            }),
            r is Some ==> r.unwrap().wf() && r.unwrap() != old(self).unwanted_op,
    {
        let mut i = self.idx;
        if i < 67 && unary_at(i) == self.unwanted_op {
            i = i + 1;
        }
        if i < 67 {
            let op = unary_at(i);
            self.idx = i + 1;
            Some(op)
        } else {
            self.idx = i;
            None
        }
    }
}

impl UnaryOp {
    /// A gate drawn from the unary family, each kind equally likely and
    /// shift distances uniform over `0..=32`.
    pub fn random(rng: &mut rand::rngs::StdRng) -> (r: UnaryOp)
        ensures
            r.wf(),
    {
        let kind = crate::rng::rng_below(rng, 3);
        if kind == 0 {
            UnaryOp::Not
        } else if kind == 1 {
            let k = crate::rng::rng_below(rng, 33);
            UnaryOp::LeftShift(k as u32)
        } else {
            let k = crate::rng::rng_below(rng, 33);
            UnaryOp::RightShift(k as u32)
        }
    }
}

/// Law: applying `Not` twice gives back the original word.
pub proof fn lemma_not_involution(x: u32)
    ensures
        UnaryOp::Not.apply_spec(UnaryOp::Not.apply_spec(x)) == x,
{
    assert(!(!x) == x) by (bit_vector);
}

/// Law: shifting left by `d` and back right by `d` keeps only some of the
/// original bits. The round trip is a submask of the input and never
/// exceeds it in the unsigned order.
pub proof fn lemma_shift_round_trip(x: u32, d: u32)
    requires
        d <= 31,
    ensures
        UnaryOp::RightShift(d).apply_spec(UnaryOp::LeftShift(d).apply_spec(x)) & x
            == UnaryOp::RightShift(d).apply_spec(UnaryOp::LeftShift(d).apply_spec(x)),
        UnaryOp::RightShift(d).apply_spec(UnaryOp::LeftShift(d).apply_spec(x)) <= x,
{
    assert(((x << d) >> d) & x == ((x << d) >> d) && ((x << d) >> d) <= x) by (bit_vector)
        requires
            d <= 31u32,
    ;
}

} // verus!
