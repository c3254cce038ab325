//! The binary operators of propositional logic, and their truth tables.

use vstd::prelude::*;

verus! {

#[derive(Debug, Clone, Copy, PartialEq, Eq, Structural)]
pub enum Op {
    And,
    Or,
    Xor,
    Imply,
    Equiv,
}

impl Op {
    /// The symbol that stands for the operator in reverse polish notation.
    pub open spec fn symbol(self) -> char {
        match self {
            Op::And => '&',
            Op::Or => '|',
            Op::Xor => '^',
            Op::Imply => '>',
            Op::Equiv => '=',
        }
    }

    /// The operator written `c` in reverse polish notation, if any.
    pub open spec fn named(c: char) -> Option<Op> {
        if c == '&' {
            Some(Op::And)
        } else if c == '|' {
            Some(Op::Or)
        } else if c == '^' {
            Some(Op::Xor)
        } else if c == '>' {
            Some(Op::Imply)
        } else if c == '=' {
            Some(Op::Equiv)
        } else {
            None
        }
    }

    /// The truth table of the operator.
    pub open spec fn holds(self, left: bool, right: bool) -> bool {
        match self {
            Op::And => left && right,
            Op::Or => left || right,
            Op::Xor => left != right,
            Op::Imply => !left || right,
            Op::Equiv => left == right,
        }
    }

    /// The operator written `c`, if any.
    pub fn from_char(c: char) -> (r: Option<Op>)
        ensures
            r == Op::named(c),
    {
        match c {
            '&' => Some(Op::And),
            '|' => Some(Op::Or),
            '^' => Some(Op::Xor),
            '>' => Some(Op::Imply),
            '=' => Some(Op::Equiv),
            _ => None,
        }
    }

    pub fn as_char(self) -> (c: char)
        ensures
            c == self.symbol(),
    {
        match self {
            Op::And => '&',
            Op::Or => '|',
            Op::Xor => '^',
            Op::Imply => '>',
            Op::Equiv => '=',
        }
    }

    pub fn apply(self, left: bool, right: bool) -> (r: bool)
        ensures
            r == self.holds(left, right),
    {
        match self {
            Op::And => left && right,
            Op::Or => left || right,
            Op::Xor => left != right,
            Op::Imply => !left || right,
            Op::Equiv => left == right,
        }
    }
}

/// The character `c` names the operator `op` exactly when `op` is written
/// `c`: each operator has a symbol of its own, and reading it back gives
/// the operator again.
pub proof fn lemma_symbol_round_trip(op: Op, c: char)
    ensures
        Op::named(c) == Some(op) <==> op.symbol() == c,
{
}

} // verus!
