//! Negation Normal Form: only `!`, `&` and `|`, with every `!` on a leaf.
//!
//! The rewriting runs in two passes, in this order. Pushing negations first
//! would need De Morgan rules for `>` and `=` as well; getting rid of them
//! beforehand leaves only four cases to handle.

use vstd::prelude::*;

use crate::formula::Formula;
use crate::op::Op;

verus! {

/// `!inner`.
pub open spec fn negation(inner: Formula) -> Formula {
    Formula::Not(Box::new(inner))
}

/// `left & right`.
pub open spec fn conjunction(left: Formula, right: Formula) -> Formula {
    Formula::Binary(Op::And, Box::new(left), Box::new(right))
}

/// `left | right`.
pub open spec fn disjunction(left: Formula, right: Formula) -> Formula {
    Formula::Binary(Op::Or, Box::new(left), Box::new(right))
}

// Node constructors, so the rewrite rules below read like the rules they
// come from instead of drowning in Box::new.
fn not(inner: Formula) -> (f: Formula)
    ensures
        f == negation(inner),
{
    Formula::Not(Box::new(inner))
}

fn not_boxed(inner: Box<Formula>) -> (f: Formula)
    ensures
        f == negation(*inner),
{
    Formula::Not(inner)
}

fn and(left: Formula, right: Formula) -> (f: Formula)
    ensures
        f == conjunction(left, right),
{
    Formula::Binary(Op::And, Box::new(left), Box::new(right))
}

fn or(left: Formula, right: Formula) -> (f: Formula)
    ensures
        f == disjunction(left, right),
{
    Formula::Binary(Op::Or, Box::new(left), Box::new(right))
}

/// Whether `f` is a constant or a variable.
pub open spec fn is_leaf(f: Formula) -> bool {
    f is Value || f is Var
}

impl Formula {
    /// The formula with `>`, `=` and `^` rewritten away:
    ///
    /// | rule | |
    /// |---|---|
    /// | `A > B` | `!A \| B` |
    /// | `A = B` | `(A & B) \| (!A & !B)` |
    /// | `A ^ B` | `(A & !B) \| (!A & B)` |
    pub open spec fn basic_form(self) -> Formula
        decreases self,
    {
        match self {
            Formula::Value(_) | Formula::Var(_) => self,
            Formula::Not(inner) => negation(inner.basic_form()),
            Formula::Binary(op, left, right) => {
                let left = left.basic_form();
                let right = right.basic_form();
                match op {
                    Op::And | Op::Or => Formula::Binary(op, Box::new(left), Box::new(right)),
                    Op::Imply => disjunction(negation(left), right),
                    Op::Equiv => disjunction(
                        conjunction(left, right),
                        conjunction(negation(left), negation(right)),
                    ),
                    Op::Xor => disjunction(
                        conjunction(left, negation(right)),
                        conjunction(negation(left), right),
                    ),
                }
            },
        }
    }

    /// Whether `&` and `|` are the only binary operators of the formula.
    pub open spec fn uses_basic_operators(self) -> bool
        decreases self,
    {
        match self {
            Formula::Value(_) | Formula::Var(_) => true,
            Formula::Not(inner) => inner.uses_basic_operators(),
            Formula::Binary(op, left, right) => (op is And || op is Or)
                && left.uses_basic_operators() && right.uses_basic_operators(),
        }
    }

    /// The formula with every negation pushed down to the leaves:
    ///
    /// | rule | |
    /// |---|---|
    /// | `!!A` | `A` |
    /// | `!(A & B)` | `!A \| !B` |
    /// | `!(A \| B)` | `!A & !B` |
    /// | `!A`, A a leaf | already normal, stop |
    pub open spec fn negations_pushed(self) -> Formula
        decreases self.size(),
    {
        match self {
            Formula::Value(_) | Formula::Var(_) => self,
            Formula::Not(inner) => match *inner {
                Formula::Not(twice) => {
                    proof {
                        lemma_size_of_negations(self);
                    }
                    twice.negations_pushed()
                },
                Formula::Binary(op, left, right) => {
                    proof {
                        lemma_size_of_negations(self);
                    }
                    let left = negation(*left).negations_pushed();
                    let right = negation(*right).negations_pushed();
                    match op {
                        Op::And => disjunction(left, right),
                        Op::Or => conjunction(left, right),
                        _ => self,
                    }
                },
                Formula::Value(_) | Formula::Var(_) => self,
            },
            Formula::Binary(op, left, right) => Formula::Binary(
                op,
                Box::new(left.negations_pushed()),
                Box::new(right.negations_pushed()),
            ),
        }
    }

    /// Whether pushing the negations down never meets a negated `^`, `>`
    /// or `=`, for which there is no rule.
    pub open spec fn negations_pushable(self) -> bool
        decreases self.size(),
    {
        match self {
            Formula::Value(_) | Formula::Var(_) => true,
            Formula::Not(inner) => match *inner {
                Formula::Not(twice) => {
                    proof {
                        lemma_size_of_negations(self);
                    }
                    twice.negations_pushable()
                },
                Formula::Binary(op, left, right) => {
                    proof {
                        lemma_size_of_negations(self);
                    }
                    (op is And || op is Or) && negation(*left).negations_pushable() && negation(
                        *right,
                    ).negations_pushable()
                },
                Formula::Value(_) | Formula::Var(_) => true,
            },
            Formula::Binary(_, left, right) => left.negations_pushable()
                && right.negations_pushable(),
        }
    }

    /// Whether the formula is in Negation Normal Form.
    pub open spec fn in_nnf(self) -> bool
        decreases self,
    {
        match self {
            Formula::Value(_) | Formula::Var(_) => true,
            Formula::Not(inner) => is_leaf(*inner),
            Formula::Binary(op, left, right) => (op is And || op is Or) && left.in_nnf()
                && right.in_nnf(),
        }
    }

    /// The Negation Normal Form of the formula.
    pub open spec fn nnf_form(self) -> Formula {
        self.basic_form().negations_pushed()
    }

    /// The formula in Negation Normal Form, as ex05 asks for.
    pub fn nnf(&self) -> (f: Formula)
        ensures
            f == self.nnf_form(),
    {
        let basic = self.with_basic_operators();
        proof {
            lemma_basic_form(*self, Seq::empty(), 'A');
            lemma_basic_operators_push(basic);
        }
        basic.with_negations_pushed()
    }

    /// Rewrites `>`, `=` and `^` away, leaving only `!`, `&` and `|`.
    ///
    /// Rewrite the children first: the tree this produces is bigger than the
    /// original (`=` and `^` duplicate both of their children) so recursing
    /// on the original, strictly smaller, children is what makes it end.
    pub fn with_basic_operators(&self) -> (f: Formula)
        ensures
            f == self.basic_form(),
        decreases self,
    {
        match self {
            Formula::Value(_) | Formula::Var(_) => self.duplicate(),
            Formula::Not(inner) => not(inner.with_basic_operators()),
            Formula::Binary(op, left, right) => {
                let left = left.with_basic_operators();
                let right = right.with_basic_operators();

                match op {
                    Op::And | Op::Or => Formula::Binary(*op, Box::new(left), Box::new(right)),
                    // A > B  ->  !A | B
                    Op::Imply => or(not(left), right),
                    // A = B  ->  (A & B) | (!A & !B)
                    Op::Equiv => or(
                        and(left.duplicate(), right.duplicate()),
                        and(not(left), not(right)),
                    ),
                    // A ^ B  ->  (A & !B) | (!A & B)
                    Op::Xor => or(
                        and(left.duplicate(), not(right.duplicate())),
                        and(not(left), right),
                    ),
                }
            },
        }
    }

    /// Pushes every negation down to the leaves.
    ///
    /// Meant to run after [`Formula::with_basic_operators`], so that the only
    /// operators left are `&` and `|`: a negated `^`, `>` or `=` has no rule.
    pub fn with_negations_pushed(&self) -> (f: Formula)
        requires
            self.negations_pushable(),
        ensures
            f == self.negations_pushed(),
        decreases self.size(),
    {
        match self {
            Formula::Value(_) | Formula::Var(_) => self.duplicate(),
            Formula::Not(inner) => match &**inner {
                // !!A  ->  A
                Formula::Not(twice) => {
                    proof {
                        lemma_size_of_negations(*self);
                    }
                    twice.with_negations_pushed()
                },
                // !(A & B)  ->  !A | !B     and     !(A | B)  ->  !A & !B
                Formula::Binary(op, left, right) => {
                    proof {
                        lemma_size_of_negations(*self);
                    }
                    let left = not_boxed(Box::new(left.duplicate())).with_negations_pushed();
                    let right = not_boxed(Box::new(right.duplicate())).with_negations_pushed();

                    match op {
                        Op::And => or(left, right),
                        _ => and(left, right),
                    }
                },
                // The negation already sits on a leaf.
                Formula::Value(_) | Formula::Var(_) => self.duplicate(),
            },
            Formula::Binary(op, left, right) => Formula::Binary(
                *op,
                Box::new(left.with_negations_pushed()),
                Box::new(right.with_negations_pushed()),
            ),
        }
    }

    /// Whether the formula is in Negation Normal Form: no operator besides
    /// `&` and `|`, and every negation sitting on a leaf.
    pub fn is_nnf(&self) -> (r: bool)
        ensures
            r == self.in_nnf(),
        decreases self,
    {
        match self {
            Formula::Value(_) | Formula::Var(_) => true,
            Formula::Not(inner) => matches!(**inner, Formula::Value(_) | Formula::Var(_)),
            Formula::Binary(op, left, right) => {
                matches!(op, Op::And | Op::Or) && left.is_nnf() && right.is_nnf()
            },
        }
    }
}

/// The formulas that pushing the negations of `f` recurses on are smaller
/// than `f`.
pub proof fn lemma_size_of_negations(f: Formula)
    ensures
        f matches Formula::Not(inner) ==> match *inner {
            Formula::Not(twice) => twice.size() < f.size(),
            Formula::Binary(_, left, right) => negation(*left).size() < f.size() && negation(
                *right,
            ).size() < f.size(),
            _ => true,
        },
{
    reveal_with_fuel(Formula::size, 3);
    if let Formula::Not(inner) = f {
        match *inner {
            Formula::Binary(_, left, right) => {
                lemma_size_positive(*left);
                lemma_size_positive(*right);
            },
            _ => {},
        }
    }
}

/// Every tree has at least one node.
pub proof fn lemma_size_positive(f: Formula)
    ensures
        f.size() >= 1,
{
}

/// The first pass keeps the value and the variables of the formula, and
/// leaves `&` and `|` as its only binary operators.
pub proof fn lemma_basic_form(f: Formula, env: Seq<bool>, c: char)
    ensures
        f.basic_form().value(env) == f.value(env),
        f.basic_form().occurs(c) == f.occurs(c),
        f.basic_form().uses_basic_operators(),
        f.wf() ==> f.basic_form().wf(),
        f.uses_basic_operators() ==> f.basic_form() == f,
    decreases f,
{
    match f {
        Formula::Value(_) | Formula::Var(_) => {},
        Formula::Not(inner) => lemma_basic_form(*inner, env, c),
        Formula::Binary(_, left, right) => {
            lemma_basic_form(*left, env, c);
            lemma_basic_form(*right, env, c);
            reveal_with_fuel(Formula::value, 4);
            reveal_with_fuel(Formula::occurs, 4);
            reveal_with_fuel(Formula::wf, 4);
            reveal_with_fuel(Formula::uses_basic_operators, 4);
        },
    }
}

/// A formula whose only binary operators are `&` and `|` has its negations
/// pushed without meeting an operator that has no rule.
pub proof fn lemma_basic_operators_push(f: Formula)
    requires
        f.uses_basic_operators(),
    ensures
        f.negations_pushable(),
    decreases f.size(),
{
    match f {
        Formula::Value(_) | Formula::Var(_) => {},
        Formula::Not(inner) => match *inner {
            Formula::Not(twice) => {
                lemma_size_of_negations(f);
                reveal_with_fuel(Formula::uses_basic_operators, 2);
                lemma_basic_operators_push(*twice);
            },
            Formula::Binary(_, left, right) => {
                lemma_size_of_negations(f);
                reveal_with_fuel(Formula::uses_basic_operators, 2);
                lemma_basic_operators_push(negation(*left));
                lemma_basic_operators_push(negation(*right));
            },
            Formula::Value(_) | Formula::Var(_) => {},
        },
        Formula::Binary(_, left, right) => {
            lemma_basic_operators_push(*left);
            lemma_basic_operators_push(*right);
        },
    }
}

/// A formula in Negation Normal Form uses no operator besides `&` and `|`.
pub proof fn lemma_nnf_uses_basic_operators(f: Formula)
    requires
        f.in_nnf(),
    ensures
        f.uses_basic_operators(),
    decreases f,
{
    match f {
        Formula::Binary(_, left, right) => {
            lemma_nnf_uses_basic_operators(*left);
            lemma_nnf_uses_basic_operators(*right);
        },
        Formula::Not(inner) => {
            reveal_with_fuel(Formula::uses_basic_operators, 2);
        },
        _ => {},
    }
}

/// The second pass keeps the value and the variables of the formula, and
/// brings a formula whose only operators are `!`, `&` and `|` into
/// Negation Normal Form; one already there is left alone.
pub proof fn lemma_negations_pushed(f: Formula, env: Seq<bool>, c: char)
    requires
        f.negations_pushable(),
    ensures
        f.negations_pushed().value(env) == f.value(env),
        f.negations_pushed().occurs(c) == f.occurs(c),
        f.wf() ==> f.negations_pushed().wf(),
        f.uses_basic_operators() ==> f.negations_pushed().in_nnf(),
        f.in_nnf() ==> f.negations_pushed() == f,
    decreases f.size(),
{
    match f {
        Formula::Value(_) | Formula::Var(_) => {},
        Formula::Not(inner) => {
            lemma_size_of_negations(f);
            match *inner {
                Formula::Not(twice) => {
                    reveal_with_fuel(Formula::uses_basic_operators, 2);
                    reveal_with_fuel(Formula::value, 2);
                    reveal_with_fuel(Formula::occurs, 2);
                    reveal_with_fuel(Formula::wf, 2);
                    lemma_negations_pushed(*twice, env, c);
                },
                Formula::Binary(op, left, right) => {
                    reveal_with_fuel(Formula::uses_basic_operators, 2);
                    reveal_with_fuel(Formula::value, 3);
                    reveal_with_fuel(Formula::occurs, 3);
                    reveal_with_fuel(Formula::wf, 3);
                    lemma_negations_pushed(negation(*left), env, c);
                    lemma_negations_pushed(negation(*right), env, c);
                },
                Formula::Value(_) | Formula::Var(_) => {},
            }
        },
        Formula::Binary(_, left, right) => {
            lemma_negations_pushed(*left, env, c);
            lemma_negations_pushed(*right, env, c);
        },
    }
}

/// The Negation Normal Form of a formula is in Negation Normal Form, has
/// the same value as the formula under every assignment, and the same
/// variables; a formula already in normal form is left alone.
pub proof fn lemma_nnf(f: Formula, env: Seq<bool>, c: char)
    ensures
        f.nnf_form().in_nnf(),
        f.nnf_form().value(env) == f.value(env),
        f.nnf_form().occurs(c) == f.occurs(c),
        f.wf() ==> f.nnf_form().wf(),
        f.in_nnf() ==> f.nnf_form() == f,
{
    lemma_basic_form(f, env, c);
    lemma_basic_operators_push(f.basic_form());
    lemma_negations_pushed(f.basic_form(), env, c);
    if f.in_nnf() {
        lemma_nnf_uses_basic_operators(f);
    }
}

} // verus!
