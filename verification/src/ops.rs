use crate::signal::Signal;
use vstd::prelude::*;

verus! {

/// A binary operation on floating-point signals.
#[derive(Debug)]
pub enum FloatBinaryOp {
    Add(Signal, Signal),
    Sub(Signal, Signal),
    Mul(Signal, Signal),
    Div(Signal, Signal),
    Pow(Signal, Signal),
}

/// A unary operation on a floating-point signal.
#[derive(Debug)]
pub enum UnaryOp {
    Neg(Signal),
}

impl FloatBinaryOp {
    /// The left and the right operand.
    pub open spec fn operands(&self) -> (Signal, Signal) {
        match *self {
            FloatBinaryOp::Add(a, b) => (a, b),
            FloatBinaryOp::Sub(a, b) => (a, b),
            FloatBinaryOp::Mul(a, b) => (a, b),
            FloatBinaryOp::Div(a, b) => (a, b),
            FloatBinaryOp::Pow(a, b) => (a, b),
        }
    }

    /// The signals this operation reads: its two operands, left first.
    pub fn dependencies(&self) -> (deps: Vec<Signal>)
        ensures
            deps@ == seq![self.operands().0, self.operands().1],
    {
        match self {
            FloatBinaryOp::Add(a, b) => vec![*a, *b],
            FloatBinaryOp::Sub(a, b) => vec![*a, *b],
            FloatBinaryOp::Mul(a, b) => vec![*a, *b],
            FloatBinaryOp::Div(a, b) => vec![*a, *b],
            FloatBinaryOp::Pow(a, b) => vec![*a, *b],
        }
    }
}

impl UnaryOp {
    /// The one operand.
    pub open spec fn operand(&self) -> Signal {
        match *self {
            UnaryOp::Neg(s) => s,
        }
    }

    /// The signals this operation reads: its operand.
    pub fn dependencies(&self) -> (deps: Vec<Signal>)
        ensures
            deps@ == seq![self.operand()],
    {
        match self {
            UnaryOp::Neg(s) => vec![*s],
        }
    }
}

} // verus!
