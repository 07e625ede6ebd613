use vstd::prelude::*;

verus! {

/// Operators that combine an extracted value with a second operand.
#[derive(Copy, Clone, Debug, PartialEq, Eq, Structural)]
pub enum MathOp {
    Add,
    Sub,
    Mult,
    Div,
    LShift,
    RShift,
}

/// The result of `a op b`, or `None` where it would overflow, underflow,
/// divide by zero, shift by 64 or more, or lose bits shifted out.
pub open spec fn op_value(op: MathOp, a: u64, b: u64) -> Option<u64> {
    match op {
        MathOp::Add => if a + b <= u64::MAX { Some((a + b) as u64) } else { None },
        MathOp::Sub => if a >= b { Some((a - b) as u64) } else { None },
        MathOp::Mult => if a * b <= u64::MAX { Some((a * b) as u64) } else { None },
        MathOp::Div => if b != 0 { Some(a / b) } else { None },
        MathOp::LShift => if b < 64 && a <= (u64::MAX >> b) { Some(a << b) } else { None },
        MathOp::RShift => if b < 64 { Some(a >> b) } else { None },
    }
}

/// Apply `op` to `a` and `b`, rejecting rather than truncating.
pub fn apply_op(op: MathOp, a: u64, b: u64) -> (r: Option<u64>)
    ensures
        r == op_value(op, a, b),
{
    match op {
        MathOp::Add => a.checked_add(b),
        MathOp::Sub => a.checked_sub(b),
        MathOp::Mult => a.checked_mul(b),
        MathOp::Div => a.checked_div(b),
        MathOp::LShift => {
            if b < 64 && a <= (u64::MAX >> b) {
                Some(a << b)
            } else {
                None
            }
        },
        MathOp::RShift => {
            if b < 64 {
                Some(a >> b)
            } else {
                None
            }
        },
    }
}

} // verus!
