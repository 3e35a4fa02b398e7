use bitvector_diff::binary::BinaryOp;
use bitvector_diff::bits::popcount;
use bitvector_diff::grad::{psi, Grad};
use bitvector_diff::unary::UnaryOp;
use rand::RngExt;

#[test]
fn not_not_is_id() {
    for _ in 0..100 {
        let x: u32 = rand::rng().random();
        let op = UnaryOp::Not;
        let y = op.apply(x);
        let z = op.apply(y);
        assert_eq!(x, z);
    }
}

#[test]
fn shift_left_right() {
    for _ in 0..100 {
        let x: u32 = rand::rng().random();
        let dist = rand::rng().random_range(0..32);
        let shift_left = UnaryOp::LeftShift(dist);
        let shift_right = UnaryOp::RightShift(dist);
        let y = shift_left.apply(x);
        let z = shift_right.apply(y);
        assert!(z <= x);
        assert_eq!(x & z, z);
    }
}

#[test]
fn unary_apply_exact() {
    assert_eq!(UnaryOp::Not.apply(0xf0f0_f0f0), 0x0f0f_0f0f);
    assert_eq!(UnaryOp::LeftShift(4).apply(0x8000_0001), 0x0000_0010);
    assert_eq!(UnaryOp::RightShift(4).apply(0x8000_0001), 0x0800_0000);
    assert_eq!(UnaryOp::LeftShift(0).apply(0x1234_5678), 0x1234_5678);
    assert_eq!(UnaryOp::LeftShift(32).apply(0xffff_ffff), 0);
    assert_eq!(UnaryOp::RightShift(32).apply(0xffff_ffff), 0);
}

#[test]
fn unary_grad_exact() {
    let g = Grad { influence: 0xffff_0000, target: 0x1234_5678 };
    let r = UnaryOp::Not.grad(g);
    assert_eq!(r.influence, 0xffff_0000);
    assert_eq!(r.target, !0x1234_5678u32);

    // A forward left shift moves sensitivity back to the right.
    let r = UnaryOp::LeftShift(8).grad(g);
    assert_eq!(r.influence, 0x00ff_ff00);
    assert_eq!(r.target, 0x0012_3456);

    let r = UnaryOp::RightShift(8).grad(g);
    assert_eq!(r.influence, 0xff00_0000);
    assert_eq!(r.target, 0x3456_7800);

    let r = UnaryOp::LeftShift(32).grad(g);
    assert_eq!(r.influence, 0);
    assert_eq!(r.target, 0);
}

#[test]
fn binary_apply_exact() {
    assert_eq!(BinaryOp::And.apply(0b1100, 0b1010), 0b1000);
    assert_eq!(BinaryOp::Or.apply(0b1100, 0b1010), 0b1110);
    assert_eq!(BinaryOp::Xor.apply(0b1100, 0b1010), 0b0110);
}

#[test]
fn binary_grad_exact() {
    let g = Grad { influence: 0xffff_ffff, target: 0x0000_ff00 };
    // And: a mismatch passes only where the other operand has a one.
    let r = BinaryOp::And.grad_x(g, 0x00ff_00ff);
    assert_eq!(r.influence, 0x00ff_00ff);
    assert_eq!(r.target, 0x0000_ff00);
    // Or: a mismatch passes only where the other operand has a zero.
    let r = BinaryOp::Or.grad_x(g, 0x00ff_00ff);
    assert_eq!(r.influence, 0xff00_ff00);
    assert_eq!(r.target, 0x0000_ff00);
    // Xor: everything passes, the pattern is compensated.
    let r = BinaryOp::Xor.grad_x(g, 0x00ff_00ff);
    assert_eq!(r.influence, 0xffff_ffff);
    assert_eq!(r.target, 0x00ff_ffff);
    // The two operands are symmetric.
    let rx = BinaryOp::And.grad_x(g, 7);
    let ry = BinaryOp::And.grad_y(g, 7);
    assert_eq!(rx.influence, ry.influence);
    assert_eq!(rx.target, ry.target);
}

#[test]
fn unary_alternatives_skip_current() {
    let mut it = UnaryOp::Not.into_iter();
    let mut seen = Vec::new();
    while let Some(op) = it.next() {
        assert_ne!(op, UnaryOp::Not);
        seen.push(op);
    }
    // Not, 33 left shifts and 33 right shifts, minus the operator itself.
    assert_eq!(seen.len(), 66);
    assert_eq!(seen[0], UnaryOp::LeftShift(0));
    assert_eq!(seen[65], UnaryOp::RightShift(32));

    let mut it = UnaryOp::LeftShift(3).into_iter();
    let mut count = 0;
    while let Some(op) = it.next() {
        assert_ne!(op, UnaryOp::LeftShift(3));
        count += 1;
    }
    assert_eq!(count, 66);
    // Exhausted it stays.
    assert_eq!(it.next(), None);
    assert_eq!(it.next(), None);
}

#[test]
fn binary_alternatives_skip_current() {
    let mut it = BinaryOp::And.into_iter();
    assert_eq!(it.next(), Some(BinaryOp::Or));
    assert_eq!(it.next(), Some(BinaryOp::Xor));
    assert_eq!(it.next(), None);

    let mut it = BinaryOp::Or.into_iter();
    assert_eq!(it.next(), Some(BinaryOp::And));
    assert_eq!(it.next(), Some(BinaryOp::Xor));
    assert_eq!(it.next(), None);
    // Exhausted it stays.
    assert_eq!(it.next(), None);
}

#[test]
fn popcount_exact() {
    assert_eq!(popcount(0), 0);
    assert_eq!(popcount(0xffff_ffff), 32);
    assert_eq!(popcount(0b1011), 3);
    assert_eq!(popcount(0x8000_0000), 1);
}

#[test]
fn psi_exact() {
    // Full influence: counts the bits where x matches the target.
    let g = Grad { influence: 0xffff_ffff, target: 0 };
    assert_eq!(psi(0, g), 32);
    assert_eq!(psi(0xffff_ffff, g), 0);
    assert_eq!(psi(0x0000_000f, g), 28);
    // Restricted influence: only the influenced positions count.
    let g = Grad { influence: 0x0000_00ff, target: 0x0000_00f0 };
    assert_eq!(psi(0x0000_00f0, g), 8);
    assert_eq!(psi(0x0000_00ff, g), 4);
    assert_eq!(psi(0xffff_00f0, g), 8);
}
