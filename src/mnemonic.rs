//! Decoded machine instructions and the IR statements they carry.
use vstd::prelude::*;
use crate::value::{Lvalue, Rvalue};

verus! {

/// A half-open address interval `[start, end)`.
#[derive(Clone, Copy, Debug, PartialEq, Eq, Hash)]
pub struct Bound {
    pub start: u64,
    pub end: u64,
}

impl Bound {
    pub fn new(start: u64, end: u64) -> (r: Bound)
        ensures
            r == (Bound { start, end }),
    {
        Bound { start, end }
    }
}

/// Whether `a` lies inside the interval.
pub open spec fn bound_contains(b: Bound, a: u64) -> bool {
    b.start <= a && a < b.end
}

/// The operation of an IR statement.
#[derive(Debug, PartialEq, Eq)]
pub enum Operation {
    Nop,
    Move(Rvalue),
    IntAdd(Rvalue, Rvalue),
    IntCall(Rvalue),
    Phi(Vec<Rvalue>),
}

/// An IR statement: an operation whose result goes to `assignee`.
#[derive(Debug, PartialEq, Eq)]
pub struct Instr {
    pub op: Operation,
    pub assignee: Lvalue,
}

/// The constant address that a statement calls, if it is a call to one.
pub open spec fn call_target(i: Instr) -> Option<u64> {
    match i.op {
        Operation::IntCall(Rvalue::Constant(c)) => Some(c),
        _ => None,
    }
}

impl Instr {
    /// The constant address that this statement calls, if any.
    pub fn constant_call(&self) -> (r: Option<u64>)
        ensures
            r == call_target(*self),
    {
        match &self.op {
            Operation::IntCall(Rvalue::Constant(c)) => Some(*c),
            _ => None,
        }
    }
}

/// One decoded machine instruction: its address interval, its textual
/// rendering and the IR statements that give its meaning.
#[derive(Debug, PartialEq, Eq)]
pub struct Mnemonic {
    pub area: Bound,
    pub opcode: String,
    pub format: String,
    pub operands: Vec<Rvalue>,
    pub instructions: Vec<Instr>,
}

impl Mnemonic {
    pub fn new(
        area: Bound,
        opcode: String,
        format: String,
        operands: Vec<Rvalue>,
        instructions: Vec<Instr>,
    ) -> (r: Mnemonic)
        ensures
            r == (Mnemonic { area, opcode, format, operands, instructions }),
    {
        Mnemonic { area, opcode, format, operands, instructions }
    }

    /// A placeholder instruction named "dummy" with no operands and no statements.
    pub fn dummy(area: Bound) -> (r: Mnemonic)
        ensures
            r.area == area,
            r.opcode@ == "dummy"@,
            r.operands@.len() == 0,
            r.instructions@.len() == 0,
    {
        Mnemonic {
            area,
            opcode: String::from_str("dummy"),
            format: String::new(),
            operands: Vec::new(),
            instructions: Vec::new(),
        }
    }
}

} // verus!
