//! Conjunctive Normal Form: a conjunction of clauses, each one a disjunction
//! of literals.
//!
//! The rewriting goes through a list of clauses rather than through the tree.
//! In a CNF the nesting is fixed (and above, or below, literals at the
//! bottom) so `Vec<Vec<Formula>>` carries everything, and the associativity
//! the subject asks for is chosen once, when the tree is built back.

use vstd::prelude::*;

use crate::formula::Formula;
use crate::nnf::{is_leaf, lemma_nnf};
use crate::op::Op;

verus! {

/// The parts joined by `op`, associating to the right: `[A, B, C]` gives
/// `A op (B op C)`.
pub open spec fn folded(parts: Seq<Formula>, op: Op) -> Formula
    decreases parts.len(),
{
    if parts.len() <= 1 {
        parts[0]
    } else {
        Formula::Binary(op, Box::new(parts[0]), Box::new(folded(parts.drop_first(), op)))
    }
}

/// Every clause of `left` merged with every clause of `right`: the clauses
/// of `left` in order, and for each of them those of `right` in order.
pub open spec fn distributed(left: Seq<Seq<Formula>>, right: Seq<Seq<Formula>>) -> Seq<
    Seq<Formula>,
>
    decreases left.len(),
{
    if left.len() == 0 {
        seq![]
    } else {
        distributed(left.drop_last(), right) + merged_with(left.last(), right)
    }
}

/// The clause `clause` merged with each clause of `right`.
pub open spec fn merged_with(clause: Seq<Formula>, right: Seq<Seq<Formula>>) -> Seq<Seq<Formula>> {
    right.map_values(|other: Seq<Formula>| clause + other)
}

/// The clauses of a list of clauses, as sequences.
pub open spec fn clauses_view(clauses: Vec<Vec<Formula>>) -> Seq<Seq<Formula>> {
    clauses@.map_values(|clause: Vec<Formula>| clause@)
}

impl Formula {
    /// The clauses of the formula, distributed as it goes:
    ///
    /// | node | clauses |
    /// |---|---|
    /// | a literal | `[[it]]` |
    /// | `X & Y` | those of X, then those of Y |
    /// | `X \| Y` | every clause of X merged with every clause of Y |
    pub open spec fn clause_list(self) -> Seq<Seq<Formula>>
        decreases self,
    {
        match self {
            Formula::Binary(Op::And, left, right) => left.clause_list() + right.clause_list(),
            Formula::Binary(Op::Or, left, right) => distributed(
                left.clause_list(),
                right.clause_list(),
            ),
            _ => seq![seq![self]],
        }
    }

    /// The Conjunctive Normal Form of the formula: the clauses of its
    /// Negation Normal Form, each joined by `|`, then all joined by `&`.
    pub open spec fn cnf_form(self) -> Formula {
        folded(
            self.nnf_form().clause_list().map_values(|clause: Seq<Formula>| folded(clause, Op::Or)),
            Op::And,
        )
    }

    /// Whether the formula is a variable or a constant, negated or not.
    pub open spec fn literal(self) -> bool {
        match self {
            Formula::Value(_) | Formula::Var(_) => true,
            Formula::Not(inner) => is_leaf(*inner),
            Formula::Binary(..) => false,
        }
    }

    /// Whether the formula is a disjunction of literals.
    pub open spec fn clause(self) -> bool
        decreases self,
    {
        match self {
            Formula::Binary(Op::Or, left, right) => left.clause() && right.clause(),
            _ => self.literal(),
        }
    }

    /// Whether the formula is a conjunction of disjunctions of literals.
    pub open spec fn in_cnf(self) -> bool
        decreases self,
    {
        match self {
            Formula::Binary(Op::And, left, right) => left.in_cnf() && right.in_cnf(),
            _ => self.clause(),
        }
    }
}

/// A copy of a clause.
fn copy_clause(clause: &Vec<Formula>) -> (copy: Vec<Formula>)
    ensures
        copy@ == clause@,
{
    let mut copy = Vec::new();
    for i in 0..clause.len()
        invariant
            copy@ == clause@.take(i as int),
    {
        copy.push(clause[i].duplicate());
        assert(copy@ =~= clause@.take(i + 1));
    }
    assert(clause@.take(clause.len() as int) =~= clause@);
    copy
}

/// Folds the parts into a single tree, associating to the right.
///
/// `[A, B, C]` with `&` gives `A & (B & C)`, whose reverse polish notation is
/// `ABC&&`: every conjunction at the end of the formula, as ex06 requires.
fn fold_right(parts: Vec<Formula>, op: Op) -> (f: Formula)
    requires
        parts@.len() > 0,
    ensures
        f == folded(parts@, op),
{
    let ghost all = parts@;
    let mut parts = parts;
    let mut acc = parts.pop().unwrap();
    assert(parts@.push(acc) =~= all);
    while parts.len() > 0
        invariant
            folded(all, op) == folded(parts@.push(acc), op),
        decreases parts.len(),
    {
        let ghost (before, last) = (parts@, acc);
        let part = parts.pop().unwrap();
        acc = Formula::Binary(op, Box::new(part), Box::new(acc));
        proof {
            assert(before =~= parts@.push(part));
            lemma_fold_last_two(parts@, part, last, op);
        }
    }
    proof {
        assert(parts@.push(acc) =~= seq![acc]);
    }
    acc
}

/// Folding the last two parts first changes nothing: the fold associates
/// to the right.
proof fn lemma_fold_last_two(init: Seq<Formula>, part: Formula, last: Formula, op: Op)
    ensures
        folded(init.push(part).push(last), op) == folded(
            init.push(Formula::Binary(op, Box::new(part), Box::new(last))),
            op,
        ),
    decreases init.len(),
{
    let joined = Formula::Binary(op, Box::new(part), Box::new(last));
    if init.len() == 0 {
        assert(seq![part, last].drop_first() =~= seq![last]);
        assert(init.push(part).push(last) =~= seq![part, last]);
        assert(init.push(joined) =~= seq![joined]);
        assert(folded(seq![last], op) == last);
        assert(folded(seq![joined], op) == joined);
        assert(folded(seq![part, last], op) == joined);
    } else {
        lemma_fold_last_two(init.drop_first(), part, last, op);
        let long = init.push(part).push(last);
        let short = init.push(joined);
        assert(long.drop_first() =~= init.drop_first().push(part).push(last));
        assert(short.drop_first() =~= init.drop_first().push(joined));
        assert(long[0] == init[0] && short[0] == init[0]);
        assert(folded(long, op) == Formula::Binary(
            op,
            Box::new(long[0]),
            Box::new(folded(long.drop_first(), op)),
        ));
        assert(folded(short, op) == Formula::Binary(
            op,
            Box::new(short[0]),
            Box::new(folded(short.drop_first(), op)),
        ));
    }
}

impl Formula {
    /// The formula in Conjunctive Normal Form, as ex06 asks for.
    pub fn cnf(&self) -> (f: Formula)
        ensures
            f == self.cnf_form(),
    {
        let clauses = self.nnf().clauses();
        let ghost list = self.nnf_form().clause_list();
        proof {
            lemma_clause_list_shape(self.nnf_form());
        }
        let mut joined: Vec<Formula> = Vec::new();
        for i in 0..clauses.len()
            invariant
                clauses_view(clauses) == list,
                forall|k: int| 0 <= k < list.len() ==> #[trigger] list[k].len() > 0,
                joined@ == list.take(i as int).map_values(
                    |clause: Seq<Formula>| folded(clause, Op::Or),
                ),
        {
            assert(clauses_view(clauses)[i as int] == clauses[i as int]@);
            joined.push(fold_right(copy_clause(&clauses[i]), Op::Or));
            assert(joined@ =~= list.take(i + 1).map_values(
                |clause: Seq<Formula>| folded(clause, Op::Or),
            ));
        }
        assert(list.take(clauses.len() as int) =~= list);
        fold_right(joined, Op::And)
    }

    /// The clauses of a formula, distributed as it goes.
    ///
    /// That last rule is the distributivity law: `(c1 & c2) | (c3 & c4)`
    /// equals `(c1|c3) & (c1|c4) & (c2|c3) & (c2|c4)`. Sizes multiply
    /// instead of adding, which is where the exponential growth the subject
    /// warns about comes from.
    ///
    /// Meant for a formula in negation normal form, where the only
    /// operators left are `&` and `|` and every `!` sits on a leaf; any other
    /// node is kept whole as a literal, which keeps the meaning, only not the
    /// form.
    pub fn clauses(&self) -> (clauses: Vec<Vec<Formula>>)
        ensures
            clauses_view(clauses) == self.clause_list(),
        decreases self,
    {
        match self {
            Formula::Binary(Op::And, left, right) => {
                let mut clauses = left.clauses();
                let mut more = right.clauses();
                let ghost (l, r) = (clauses, more);
                clauses.append(&mut more);
                assert(clauses_view(clauses) =~= clauses_view(l) + clauses_view(r));
                clauses
            },
            Formula::Binary(Op::Or, left, right) => {
                let left = left.clauses();
                let right = right.clauses();
                let ghost (l, r) = (clauses_view(left), clauses_view(right));
                let mut product: Vec<Vec<Formula>> = Vec::new();

                for i in 0..left.len()
                    invariant
                        clauses_view(left) == l,
                        clauses_view(right) == r,
                        clauses_view(product) == distributed(l.take(i as int), r),
                {
                    assert(l[i as int] == left[i as int]@);
                    let ghost before = clauses_view(product);
                    for j in 0..right.len()
                        invariant
                            clauses_view(left) == l,
                            clauses_view(right) == r,
                            i < l.len(),
                            clauses_view(product) == before + merged_with(
                                l[i as int],
                                r.take(j as int),
                            ),
                    {
                        assert(r[j as int] == right[j as int]@);
                        let mut merged = copy_clause(&left[i]);
                        let mut tail = copy_clause(&right[j]);
                        merged.append(&mut tail);
                        assert(merged@ =~= l[i as int] + r[j as int]);
                        let ghost product_before = clauses_view(product);
                        product.push(merged);
                        assert(clauses_view(product) =~= product_before.push(
                            l[i as int] + r[j as int],
                        ));
                        assert(merged_with(l[i as int], r.take(j + 1)) =~= merged_with(
                            l[i as int],
                            r.take(j as int),
                        ).push(l[i as int] + r[j as int]));
                        assert(clauses_view(product) =~= before + merged_with(
                            l[i as int],
                            r.take(j + 1),
                        ));
                    }
                    assert(r.take(right.len() as int) =~= r);
                    assert(l.take(i + 1).drop_last() =~= l.take(i as int));
                    assert(clauses_view(product) =~= distributed(l.take(i + 1), r));
                }
                assert(l.take(left.len() as int) =~= l);
                product
            },
            // A literal, or an operator NNF should have removed.
            _ => {
                let mut clause = Vec::new();
                clause.push(self.duplicate());
                let mut clauses = Vec::new();
                clauses.push(clause);
                assert(clauses_view(clauses) =~= seq![seq![*self]]);
                clauses
            },
        }
    }

    /// Whether the formula is a conjunction of disjunctions of literals.
    ///
    /// This is the mathematical definition, which says nothing about
    /// associativity; the subject's stricter wording (every conjunction at
    /// the end of the formula) is checked on the printed output instead.
    pub fn is_cnf(&self) -> (r: bool)
        ensures
            r == self.in_cnf(),
        decreases self,
    {
        match self {
            Formula::Binary(Op::And, left, right) => left.is_cnf() && right.is_cnf(),
            clause => clause.is_clause(),
        }
    }

    /// Whether the formula is a disjunction of literals.
    fn is_clause(&self) -> (r: bool)
        ensures
            r == self.clause(),
        decreases self,
    {
        match self {
            Formula::Binary(Op::Or, left, right) => left.is_clause() && right.is_clause(),
            literal => literal.is_literal(),
        }
    }

    /// Whether the formula is a variable or a constant, negated or not.
    fn is_literal(&self) -> (r: bool)
        ensures
            r == self.literal(),
    {
        match self {
            Formula::Value(_) | Formula::Var(_) => true,
            Formula::Not(inner) => matches!(**inner, Formula::Value(_) | Formula::Var(_)),
            Formula::Binary(..) => false,
        }
    }
}

/// No list of clauses is empty, and no clause either.
pub open spec fn no_empty_clause(clauses: Seq<Seq<Formula>>) -> bool {
    &&& clauses.len() > 0
    &&& forall|k: int| 0 <= k < clauses.len() ==> #[trigger] clauses[k].len() > 0
}

proof fn lemma_distributed_shape(left: Seq<Seq<Formula>>, right: Seq<Seq<Formula>>)
    requires
        forall|k: int| 0 <= k < left.len() ==> #[trigger] left[k].len() > 0,
        no_empty_clause(right),
    ensures
        distributed(left, right).len() == left.len() * right.len(),
        forall|k: int|
            0 <= k < distributed(left, right).len() ==> #[trigger] distributed(
                left,
                right,
            )[k].len() > 0,
    decreases left.len(),
{
    if left.len() > 0 {
        lemma_distributed_shape(left.drop_last(), right);
        assert(left.len() * right.len() == (left.len() - 1) * right.len() + right.len())
            by (nonlinear_arith);
        let d = distributed(left, right);
        let d0 = distributed(left.drop_last(), right);
        assert forall|k: int| 0 <= k < d.len() implies #[trigger] d[k].len() > 0 by {
            if k >= d0.len() {
                assert(d[k] == left.last() + right[k - d0.len()]);
            }
        }
    }
}

/// The clause list is never empty, nor is any of its clauses: folding them
/// back into a tree is always possible.
pub proof fn lemma_clause_list_shape(f: Formula)
    ensures
        no_empty_clause(f.clause_list()),
    decreases f,
{
    match f {
        Formula::Binary(Op::And, left, right) => {
            lemma_clause_list_shape(*left);
            lemma_clause_list_shape(*right);
            let (l, r) = (left.clause_list(), right.clause_list());
            assert forall|k: int| 0 <= k < (l + r).len() implies #[trigger] (l + r)[k].len() > 0 by {
                if k >= l.len() {
                    assert((l + r)[k] == r[k - l.len()]);
                }
            }
        },
        Formula::Binary(Op::Or, left, right) => {
            lemma_clause_list_shape(*left);
            lemma_clause_list_shape(*right);
            lemma_distributed_shape(left.clause_list(), right.clause_list());
            assert(left.clause_list().len() * right.clause_list().len() > 0) by (nonlinear_arith)
                requires
                    left.clause_list().len() > 0,
                    right.clause_list().len() > 0,
            ;
        },
        _ => {},
    }
}

/// Some literal of the clause is true under `env`.
pub open spec fn clause_satisfied(clause: Seq<Formula>, env: Seq<bool>) -> bool {
    exists|j: int| 0 <= j < clause.len() && #[trigger] clause[j].value(env)
}

/// Every clause of the list is satisfied under `env`.
pub open spec fn clauses_satisfied(clauses: Seq<Seq<Formula>>, env: Seq<bool>) -> bool {
    forall|k: int| 0 <= k < clauses.len() ==> clause_satisfied(#[trigger] clauses[k], env)
}

proof fn lemma_merged_with_value(clause: Seq<Formula>, right: Seq<Seq<Formula>>, env: Seq<bool>)
    ensures
        clauses_satisfied(merged_with(clause, right), env) == (clause_satisfied(clause, env)
            || clauses_satisfied(right, env)),
{
    let m = merged_with(clause, right);
    assert forall|k: int| 0 <= k < right.len() implies clause_satisfied(#[trigger] m[k], env)
        == (clause_satisfied(clause, env) || clause_satisfied(right[k], env)) by {
        let merged = clause + right[k];
        assert(m[k] == merged);
        if clause_satisfied(clause, env) {
            let j = choose|j: int| 0 <= j < clause.len() && #[trigger] clause[j].value(env);
            assert(merged[j] == clause[j]);
        }
        if clause_satisfied(right[k], env) {
            let j = choose|j: int| 0 <= j < right[k].len() && #[trigger] right[k][j].value(env);
            assert(merged[clause.len() + j] == right[k][j]);
        }
        if clause_satisfied(merged, env) {
            let j = choose|j: int| 0 <= j < merged.len() && #[trigger] merged[j].value(env);
            if j < clause.len() {
                assert(clause[j] == merged[j]);
            } else {
                assert(right[k][j - clause.len()] == merged[j]);
            }
        }
    }
    if !clause_satisfied(clause, env) && !clauses_satisfied(right, env) {
        let k = choose|k: int| 0 <= k < right.len() && !clause_satisfied(#[trigger] right[k], env);
        assert(!clause_satisfied(m[k], env));
    }
}

proof fn lemma_distributed_value(
    left: Seq<Seq<Formula>>,
    right: Seq<Seq<Formula>>,
    env: Seq<bool>,
)
    ensures
        clauses_satisfied(distributed(left, right), env) == (clauses_satisfied(left, env)
            || clauses_satisfied(right, env)),
    decreases left.len(),
{
    if left.len() > 0 {
        let init = left.drop_last();
        lemma_distributed_value(init, right, env);
        lemma_merged_with_value(left.last(), right, env);
        let d0 = distributed(init, right);
        let m = merged_with(left.last(), right);
        let d = d0 + m;
        assert(clauses_satisfied(d, env) == (clauses_satisfied(d0, env) && clauses_satisfied(
            m,
            env,
        ))) by {
            if clauses_satisfied(d0, env) && clauses_satisfied(m, env) {
                assert forall|k: int| 0 <= k < d.len() implies clause_satisfied(
                    #[trigger] d[k],
                    env,
                ) by {
                    if k < d0.len() {
                        assert(d[k] == d0[k]);
                    } else {
                        assert(d[k] == m[k - d0.len()]);
                    }
                }
            }
            if clauses_satisfied(d, env) {
                assert forall|k: int| 0 <= k < d0.len() implies clause_satisfied(
                    #[trigger] d0[k],
                    env,
                ) by {
                    assert(d[k] == d0[k]);
                }
                assert forall|k: int| 0 <= k < m.len() implies clause_satisfied(
                    #[trigger] m[k],
                    env,
                ) by {
                    assert(d[d0.len() + k] == m[k]);
                }
            }
        }
        assert(clauses_satisfied(left, env) == (clauses_satisfied(init, env) && clause_satisfied(
            left.last(),
            env,
        ))) by {
            if clauses_satisfied(init, env) && clause_satisfied(left.last(), env) {
                assert forall|k: int| 0 <= k < left.len() implies clause_satisfied(
                    #[trigger] left[k],
                    env,
                ) by {
                    if k < init.len() {
                        assert(left[k] == init[k]);
                    }
                }
            }
            if clauses_satisfied(left, env) {
                assert forall|k: int| 0 <= k < init.len() implies clause_satisfied(
                    #[trigger] init[k],
                    env,
                ) by {
                    assert(left[k] == init[k]);
                }
            }
        }
    }
}

/// The clauses of a formula all hold exactly when the formula does.
pub proof fn lemma_clause_list_value(f: Formula, env: Seq<bool>)
    ensures
        clauses_satisfied(f.clause_list(), env) == f.value(env),
    decreases f,
{
    match f {
        Formula::Binary(Op::And, left, right) => {
            lemma_clause_list_value(*left, env);
            lemma_clause_list_value(*right, env);
            let (l, r) = (left.clause_list(), right.clause_list());
            let both = l + r;
            if clauses_satisfied(l, env) && clauses_satisfied(r, env) {
                assert forall|k: int| 0 <= k < both.len() implies clause_satisfied(
                    #[trigger] both[k],
                    env,
                ) by {
                    if k < l.len() {
                        assert(both[k] == l[k]);
                    } else {
                        assert(both[k] == r[k - l.len()]);
                    }
                }
            }
            if clauses_satisfied(both, env) {
                assert forall|k: int| 0 <= k < l.len() implies clause_satisfied(
                    #[trigger] l[k],
                    env,
                ) by {
                    assert(both[k] == l[k]);
                }
                assert forall|k: int| 0 <= k < r.len() implies clause_satisfied(
                    #[trigger] r[k],
                    env,
                ) by {
                    assert(both[l.len() + k] == r[k]);
                }
            }
        },
        Formula::Binary(Op::Or, left, right) => {
            lemma_clause_list_value(*left, env);
            lemma_clause_list_value(*right, env);
            lemma_distributed_value(left.clause_list(), right.clause_list(), env);
        },
        _ => {
            let cl = f.clause_list();
            assert(cl[0][0] == f);
            if f.value(env) {
                assert(clause_satisfied(cl[0], env));
            }
        },
    }
}

/// Joining parts with `&` gives a formula true when every part is; with
/// `|`, one true when some part is.
pub proof fn lemma_folded_value(parts: Seq<Formula>, env: Seq<bool>)
    requires
        parts.len() > 0,
    ensures
        folded(parts, Op::And).value(env) == forall|k: int|
            0 <= k < parts.len() ==> #[trigger] parts[k].value(env),
        folded(parts, Op::Or).value(env) == exists|k: int|
            0 <= k < parts.len() && #[trigger] parts[k].value(env),
    decreases parts.len(),
{
    if parts.len() > 1 {
        let rest = parts.drop_first();
        lemma_folded_value(rest, env);
        assert(forall|k: int| 0 <= k < rest.len() ==> rest[k] == parts[k + 1]);
        if forall|k: int| 0 <= k < parts.len() ==> #[trigger] parts[k].value(env) {
            assert(parts[0].value(env));
            assert forall|k: int| 0 <= k < rest.len() implies #[trigger] rest[k].value(env) by {
                assert(parts[k + 1].value(env));
            }
        }
        if folded(parts, Op::And).value(env) {
            assert forall|k: int| 0 <= k < parts.len() implies #[trigger] parts[k].value(env) by {
                if k > 0 {
                    assert(rest[k - 1].value(env));
                }
            }
        }
        if exists|k: int| 0 <= k < parts.len() && #[trigger] parts[k].value(env) {
            let k = choose|k: int| 0 <= k < parts.len() && #[trigger] parts[k].value(env);
            if k > 0 {
                assert(rest[k - 1].value(env));
            }
        }
        if folded(parts, Op::Or).value(env) {
            if !parts[0].value(env) {
                let k = choose|k: int| 0 <= k < rest.len() && #[trigger] rest[k].value(env);
                assert(parts[k + 1].value(env));
            }
        }
    } else {
        if exists|k: int| 0 <= k < parts.len() && #[trigger] parts[k].value(env) {
            let k = choose|k: int| 0 <= k < parts.len() && #[trigger] parts[k].value(env);
            assert(k == 0);
        }
    }
}

/// Every literal of every clause satisfies `p`.
pub open spec fn all_parts(clauses: Seq<Seq<Formula>>, p: spec_fn(Formula) -> bool) -> bool {
    forall|k: int, j: int|
        0 <= k < clauses.len() && 0 <= j < clauses[k].len() ==> p(#[trigger] clauses[k][j])
}

/// Some literal of some clause satisfies `p`.
pub open spec fn some_part(clauses: Seq<Seq<Formula>>, p: spec_fn(Formula) -> bool) -> bool {
    exists|k: int, j: int|
        0 <= k < clauses.len() && 0 <= j < clauses[k].len() && p(#[trigger] clauses[k][j])
}

/// `p` holds of every node that the clause list keeps whole.
pub open spec fn leaves_satisfy(f: Formula, p: spec_fn(Formula) -> bool) -> bool
    decreases f,
{
    match f {
        Formula::Binary(Op::And, left, right) => leaves_satisfy(*left, p) && leaves_satisfy(
            *right,
            p,
        ),
        Formula::Binary(Op::Or, left, right) => leaves_satisfy(*left, p) && leaves_satisfy(
            *right,
            p,
        ),
        _ => p(f),
    }
}

proof fn lemma_concat_parts(
    l: Seq<Seq<Formula>>,
    r: Seq<Seq<Formula>>,
    p: spec_fn(Formula) -> bool,
)
    ensures
        all_parts(l + r, p) == (all_parts(l, p) && all_parts(r, p)),
        some_part(l + r, p) == (some_part(l, p) || some_part(r, p)),
{
    let both = l + r;
    assert(forall|k: int| 0 <= k < l.len() ==> both[k] == l[k]);
    assert(forall|k: int| 0 <= k < r.len() ==> both[l.len() + k] == r[k]);
    if all_parts(l, p) && all_parts(r, p) {
        assert forall|k: int, j: int|
            0 <= k < both.len() && 0 <= j < both[k].len() implies p(#[trigger] both[k][j]) by {
            if k >= l.len() {
                assert(both[k] == r[k - l.len()]);
            }
        }
    }
    if all_parts(both, p) {
        assert forall|k: int, j: int|
            0 <= k < r.len() && 0 <= j < r[k].len() implies p(#[trigger] r[k][j]) by {
            assert(both[l.len() + k][j] == r[k][j]);
        }
        assert forall|k: int, j: int|
            0 <= k < l.len() && 0 <= j < l[k].len() implies p(#[trigger] l[k][j]) by {
            assert(both[k][j] == l[k][j]);
        }
    }
    if some_part(both, p) {
        let (k, j) = choose|k: int, j: int|
            0 <= k < both.len() && 0 <= j < both[k].len() && p(#[trigger] both[k][j]);
        if k < l.len() {
            assert(l[k][j] == both[k][j]);
        } else {
            assert(r[k - l.len()][j] == both[k][j]);
        }
    }
    if some_part(l, p) {
        let (k, j) = choose|k: int, j: int|
            0 <= k < l.len() && 0 <= j < l[k].len() && p(#[trigger] l[k][j]);
        assert(both[k][j] == l[k][j]);
    }
    if some_part(r, p) {
        let (k, j) = choose|k: int, j: int|
            0 <= k < r.len() && 0 <= j < r[k].len() && p(#[trigger] r[k][j]);
        assert(both[l.len() + k][j] == r[k][j]);
    }
}

proof fn lemma_merged_with_parts(
    clause: Seq<Formula>,
    right: Seq<Seq<Formula>>,
    p: spec_fn(Formula) -> bool,
)
    requires
        no_empty_clause(right),
    ensures
        all_parts(merged_with(clause, right), p) == ((forall|j: int|
            0 <= j < clause.len() ==> p(#[trigger] clause[j])) && all_parts(right, p)),
        some_part(merged_with(clause, right), p) == ((exists|j: int|
            0 <= j < clause.len() && p(#[trigger] clause[j])) || some_part(right, p)),
{
    let m = merged_with(clause, right);
    assert forall|k: int, j: int| 0 <= k < right.len() && 0 <= j < right[k].len() implies #[trigger] m[k][clause.len() + j] == right[k][j] by {
        assert(m[k] == clause + right[k]);
    }
    assert forall|k: int, j: int| 0 <= k < right.len() && 0 <= j < clause.len() implies #[trigger] m[k][j] == clause[j] by {
        assert(m[k] == clause + right[k]);
    }
    if (forall|j: int| 0 <= j < clause.len() ==> p(#[trigger] clause[j])) && all_parts(right, p) {
        assert forall|k: int, j: int|
            0 <= k < m.len() && 0 <= j < m[k].len() implies p(#[trigger] m[k][j]) by {
            assert(m[k] == clause + right[k]);
            if j >= clause.len() {
                assert(m[k][j] == right[k][j - clause.len()]);
            }
        }
    }
    if all_parts(m, p) {
        assert forall|j: int| 0 <= j < clause.len() implies p(#[trigger] clause[j]) by {
            assert(m[0][j] == clause[j]);
        }
        assert forall|k: int, j: int|
            0 <= k < right.len() && 0 <= j < right[k].len() implies p(#[trigger] right[k][j]) by {
            assert(m[k][clause.len() + j] == right[k][j]);
        }
    }
    if some_part(m, p) {
        let (k, j) = choose|k: int, j: int|
            0 <= k < m.len() && 0 <= j < m[k].len() && p(#[trigger] m[k][j]);
        assert(m[k] == clause + right[k]);
        if j < clause.len() {
            assert(clause[j] == m[k][j]);
        } else {
            assert(right[k][j - clause.len()] == m[k][j]);
        }
    }
    if exists|j: int| 0 <= j < clause.len() && p(#[trigger] clause[j]) {
        let j = choose|j: int| 0 <= j < clause.len() && p(#[trigger] clause[j]);
        assert(m[0][j] == clause[j]);
    }
    if some_part(right, p) {
        let (k, j) = choose|k: int, j: int|
            0 <= k < right.len() && 0 <= j < right[k].len() && p(#[trigger] right[k][j]);
        assert(m[k][clause.len() + j] == right[k][j]);
    }
}

proof fn lemma_distributed_parts(
    left: Seq<Seq<Formula>>,
    right: Seq<Seq<Formula>>,
    p: spec_fn(Formula) -> bool,
)
    requires
        no_empty_clause(left),
        no_empty_clause(right),
    ensures
        all_parts(distributed(left, right), p) == (all_parts(left, p) && all_parts(right, p)),
        some_part(distributed(left, right), p) == (some_part(left, p) || some_part(right, p)),
    decreases left.len(),
{
    let init = left.drop_last();
    let last = left.last();
    lemma_merged_with_parts(last, right, p);
    lemma_concat_parts(distributed(init, right), merged_with(last, right), p);
    lemma_concat_parts(init, seq![last], p);
    assert(init + seq![last] =~= left);
    assert(all_parts(seq![last], p) == (forall|j: int|
        0 <= j < last.len() ==> p(#[trigger] last[j]))) by {
        assert(forall|j: int| 0 <= j < last.len() ==> seq![last][0][j] == #[trigger] last[j]);
    }
    assert(some_part(seq![last], p) == (exists|j: int|
        0 <= j < last.len() && p(#[trigger] last[j]))) by {
        assert(forall|j: int| 0 <= j < last.len() ==> seq![last][0][j] == #[trigger] last[j]);
        if some_part(seq![last], p) {
            let (k, j) = choose|k: int, j: int|
                0 <= k < 1 && 0 <= j < seq![last][k].len() && p(#[trigger] seq![last][k][j]);
            assert(p(last[j]));
        }
    }
    if init.len() == 0 {
        assert(distributed(init, right) =~= seq![]);
        assert(!some_part(init, p));
        assert(!some_part(distributed(init, right), p));
    } else {
        assert forall|k: int| 0 <= k < init.len() implies #[trigger] init[k].len() > 0 by {
            assert(init[k] == left[k]);
        }
        lemma_distributed_parts(init, right, p);
    }
}

/// `p` holds of every literal of the clause list when it holds of every
/// node kept whole; and some literal satisfies it when some such node does.
pub proof fn lemma_clause_list_parts(f: Formula, p: spec_fn(Formula) -> bool)
    ensures
        leaves_satisfy(f, p) ==> all_parts(f.clause_list(), p),
        some_part(f.clause_list(), p) == some_leaf(f, p),
    decreases f,
{
    lemma_clause_list_shape(f);
    match f {
        Formula::Binary(Op::And, left, right) => {
            lemma_clause_list_parts(*left, p);
            lemma_clause_list_parts(*right, p);
            lemma_concat_parts(left.clause_list(), right.clause_list(), p);
        },
        Formula::Binary(Op::Or, left, right) => {
            lemma_clause_list_parts(*left, p);
            lemma_clause_list_parts(*right, p);
            lemma_clause_list_shape(*left);
            lemma_clause_list_shape(*right);
            lemma_distributed_parts(left.clause_list(), right.clause_list(), p);
        },
        _ => {
            let cl = f.clause_list();
            assert(cl[0][0] == f);
            if some_part(cl, p) {
                let (k, j) = choose|k: int, j: int|
                    0 <= k < cl.len() && 0 <= j < cl[k].len() && p(#[trigger] cl[k][j]);
                assert(cl[k][j] == f);
            }
        },
    }
}

/// `p` holds of some node that the clause list keeps whole.
pub open spec fn some_leaf(f: Formula, p: spec_fn(Formula) -> bool) -> bool
    decreases f,
{
    match f {
        Formula::Binary(Op::And, left, right) => some_leaf(*left, p) || some_leaf(*right, p),
        Formula::Binary(Op::Or, left, right) => some_leaf(*left, p) || some_leaf(*right, p),
        _ => p(f),
    }
}

/// A property kept by joining two formulas with `op` holds of the parts
/// joined, if it holds of each part.
proof fn lemma_folded_closed(parts: Seq<Formula>, op: Op, p: spec_fn(Formula) -> bool)
    requires
        parts.len() > 0,
        forall|k: int| 0 <= k < parts.len() ==> p(#[trigger] parts[k]),
        forall|x: Formula, y: Formula|
            p(x) && p(y) ==> #[trigger] p(Formula::Binary(op, Box::new(x), Box::new(y))),
    ensures
        p(folded(parts, op)),
    decreases parts.len(),
{
    if parts.len() > 1 {
        let rest = parts.drop_first();
        assert(forall|k: int| 0 <= k < rest.len() ==> rest[k] == parts[k + 1]);
        lemma_folded_closed(rest, op, p);
        assert(p(parts[0]));
    } else {
        assert(p(parts[0]));
    }
}

/// A variable occurs in the parts joined exactly when it occurs in one of
/// them.
proof fn lemma_folded_occurs(parts: Seq<Formula>, op: Op, c: char)
    requires
        parts.len() > 0,
    ensures
        folded(parts, op).occurs(c) == exists|k: int|
            0 <= k < parts.len() && #[trigger] parts[k].occurs(c),
    decreases parts.len(),
{
    if parts.len() > 1 {
        let rest = parts.drop_first();
        assert(forall|k: int| 0 <= k < rest.len() ==> rest[k] == parts[k + 1]);
        lemma_folded_occurs(rest, op, c);
        assert(folded(parts, op).occurs(c) == (parts[0].occurs(c) || folded(rest, op).occurs(c)));
        if exists|k: int| 0 <= k < parts.len() && #[trigger] parts[k].occurs(c) {
            let k = choose|k: int| 0 <= k < parts.len() && #[trigger] parts[k].occurs(c);
            if k > 0 {
                assert(rest[k - 1].occurs(c));
            }
        }
        if folded(rest, op).occurs(c) {
            let k = choose|k: int| 0 <= k < rest.len() && #[trigger] rest[k].occurs(c);
            assert(parts[k + 1].occurs(c));
        }
    } else {
        if exists|k: int| 0 <= k < parts.len() && #[trigger] parts[k].occurs(c) {
            let k = choose|k: int| 0 <= k < parts.len() && #[trigger] parts[k].occurs(c);
            assert(k == 0);
        }
    }
}

/// Every `&` of the text comes after every other symbol: in reverse polish
/// notation, every conjunction sits at the end of the formula.
pub open spec fn conjunctions_at_end(s: Seq<char>) -> bool {
    forall|i: int, j: int| 0 <= i < j < s.len() && s[i] == '&' ==> s[j] == '&'
}

/// The text holds no `&`.
pub open spec fn without_conjunction(s: Seq<char>) -> bool {
    forall|i: int| 0 <= i < s.len() ==> s[i] != '&'
}

/// Parts written without `&`, joined by `&`, leave every `&` at the end.
proof fn lemma_folded_conjunctions_at_end(parts: Seq<Formula>)
    requires
        parts.len() > 0,
        forall|k: int| 0 <= k < parts.len() ==> without_conjunction(#[trigger] parts[k].rpn()),
    ensures
        conjunctions_at_end(folded(parts, Op::And).rpn()),
    decreases parts.len(),
{
    if parts.len() > 1 {
        let rest = parts.drop_first();
        assert(forall|k: int| 0 <= k < rest.len() ==> rest[k] == parts[k + 1]);
        lemma_folded_conjunctions_at_end(rest);
        let head = parts[0].rpn();
        let tail = folded(rest, Op::And).rpn();
        let s = folded(parts, Op::And).rpn();
        assert(s == (head + tail).push('&'));
        assert(without_conjunction(head));
        assert forall|i: int, j: int| 0 <= i < j < s.len() && s[i] == '&' implies s[j] == '&' by {
            if i < head.len() {
                assert(s[i] == head[i]);
            } else if j < s.len() - 1 {
                assert(s[i] == tail[i - head.len()]);
                assert(s[j] == tail[j - head.len()]);
            }
        }
    } else {
        assert(without_conjunction(parts[0].rpn()));
    }
}

/// A well-formed clause is written without `&`.
proof fn lemma_clause_without_conjunction(x: Formula)
    requires
        x.clause(),
        x.wf(),
    ensures
        without_conjunction(x.rpn()),
    decreases x,
{
    match x {
        Formula::Binary(Op::Or, left, right) => {
            lemma_clause_without_conjunction(*left);
            lemma_clause_without_conjunction(*right);
            let (l, r) = (left.rpn(), right.rpn());
            assert(x.rpn() == (l + r).push('|'));
            assert forall|i: int| 0 <= i < x.rpn().len() implies x.rpn()[i] != '&' by {
                if i < l.len() {
                    assert(x.rpn()[i] == l[i]);
                } else if i < l.len() + r.len() {
                    assert(x.rpn()[i] == r[i - l.len()]);
                }
            }
        },
        Formula::Not(inner) => {
            assert(x.literal());
            assert(is_leaf(*inner) && inner.wf());
            match *inner {
                Formula::Var(v) => assert(inner.rpn() == seq![v]),
                _ => {},
            }
            assert(inner.rpn().len() == 1 && inner.rpn()[0] != '&');
            assert(x.rpn() == inner.rpn().push('!'));
            assert(x.rpn().len() == 2);
        },
        _ => {
            assert(x.rpn().len() == 1 && x.rpn()[0] != '&');
        },
    }
}

proof fn lemma_nnf_leaves(f: Formula, c: char)
    ensures
        f.in_nnf() ==> leaves_satisfy(f, |x: Formula| x.literal()),
        f.wf() ==> leaves_satisfy(f, |x: Formula| x.wf()),
        some_leaf(f, |x: Formula| x.occurs(c)) == f.occurs(c),
    decreases f,
{
    match f {
        Formula::Binary(_, left, right) => {
            lemma_nnf_leaves(*left, c);
            lemma_nnf_leaves(*right, c);
        },
        _ => {},
    }
}

/// The Conjunctive Normal Form of a formula is a conjunction of clauses,
/// has the same value as the formula under every assignment, and the same
/// variables; written out, every conjunction sits at the end.
pub proof fn lemma_cnf(f: Formula, env: Seq<bool>, c: char)
    ensures
        f.cnf_form().in_cnf(),
        f.cnf_form().value(env) == f.value(env),
        f.cnf_form().occurs(c) == f.occurs(c),
        f.wf() ==> f.cnf_form().wf(),
        f.wf() ==> conjunctions_at_end(f.cnf_form().rpn()),
{
    let n = f.nnf_form();
    lemma_nnf(f, env, c);
    let cl = n.clause_list();
    lemma_clause_list_shape(n);
    let joined = cl.map_values(|clause: Seq<Formula>| folded(clause, Op::Or));
    assert(f.cnf_form() == folded(joined, Op::And));

    // The value.
    lemma_clause_list_value(n, env);
    assert forall|k: int| 0 <= k < joined.len() implies #[trigger] joined[k].value(env)
        == clause_satisfied(cl[k], env) by {
        lemma_folded_value(cl[k], env);
    }
    lemma_folded_value(joined, env);
    assert(folded(joined, Op::And).value(env) == clauses_satisfied(cl, env)) by {
        if folded(joined, Op::And).value(env) {
            assert forall|k: int| 0 <= k < cl.len() implies clause_satisfied(
                #[trigger] cl[k],
                env,
            ) by {
                assert(joined[k].value(env));
            }
        }
        if clauses_satisfied(cl, env) {
            assert forall|k: int| 0 <= k < joined.len() implies #[trigger] joined[k].value(env) by {
                assert(clause_satisfied(cl[k], env));
            }
        }
    }

    // The shape.
    lemma_nnf_leaves(n, c);
    let literal = |x: Formula| x.literal();
    let clause = |x: Formula| x.clause();
    let cnf = |x: Formula| x.in_cnf();
    lemma_clause_list_parts(n, literal);
    assert forall|k: int| 0 <= k < joined.len() implies #[trigger] joined[k].clause() by {
        assert forall|j: int| 0 <= j < cl[k].len() implies clause(#[trigger] cl[k][j]) by {
            assert(literal(cl[k][j]));
        }
        lemma_folded_closed(cl[k], Op::Or, clause);
    }
    assert forall|k: int| 0 <= k < joined.len() implies cnf(#[trigger] joined[k]) by {
        assert(joined[k].clause());
    }
    lemma_folded_closed(joined, Op::And, cnf);

    // The variables.
    let occurs = |x: Formula| x.occurs(c);
    lemma_clause_list_parts(n, occurs);
    assert forall|k: int| 0 <= k < joined.len() implies #[trigger] joined[k].occurs(c) == (exists|
        j: int,
    | 0 <= j < cl[k].len() && #[trigger] cl[k][j].occurs(c)) by {
        lemma_folded_occurs(cl[k], Op::Or, c);
    }
    lemma_folded_occurs(joined, Op::And, c);
    if f.occurs(c) {
        let (k, j) = choose|k: int, j: int|
            0 <= k < cl.len() && 0 <= j < cl[k].len() && occurs(#[trigger] cl[k][j]);
        assert(joined[k].occurs(c));
    }
    if f.cnf_form().occurs(c) {
        let k = choose|k: int| 0 <= k < joined.len() && #[trigger] joined[k].occurs(c);
        let j = choose|j: int| 0 <= j < cl[k].len() && #[trigger] cl[k][j].occurs(c);
        assert(occurs(cl[k][j]));
    }

    // Well-formed, and written with the conjunctions last.
    if f.wf() {
        let wf = |x: Formula| x.wf();
        let clean_clause = |x: Formula| x.clause() && x.wf();
        lemma_clause_list_parts(n, wf);
        assert forall|k: int| 0 <= k < joined.len() implies clean_clause(#[trigger] joined[k]) by {
            assert forall|j: int| 0 <= j < cl[k].len() implies clean_clause(
                #[trigger] cl[k][j],
            ) by {
                assert(literal(cl[k][j]) && wf(cl[k][j]));
            }
            lemma_folded_closed(cl[k], Op::Or, clean_clause);
        }
        assert forall|k: int| 0 <= k < joined.len() implies wf(#[trigger] joined[k]) by {
            assert(clean_clause(joined[k]));
        }
        lemma_folded_closed(joined, Op::And, wf);
        assert forall|k: int| 0 <= k < joined.len() implies without_conjunction(
            #[trigger] joined[k].rpn(),
        ) by {
            assert(clean_clause(joined[k]));
            lemma_clause_without_conjunction(joined[k]);
        }
        lemma_folded_conjunctions_at_end(joined);
    }
}

/// The clauses joined back: each clause by `|`, then all by `&`, both
/// associating to the right.
pub open spec fn joined_clauses(clauses: Seq<Seq<Formula>>) -> Formula {
    folded(clauses.map_values(|clause: Seq<Formula>| folded(clause, Op::Or)), Op::And)
}

proof fn lemma_clause_of_folded_literals(clause: Seq<Formula>)
    requires
        clause.len() > 0,
        forall|j: int| 0 <= j < clause.len() ==> (#[trigger] clause[j]).literal(),
    ensures
        folded(clause, Op::Or).clause_list() == seq![clause],
    decreases clause.len(),
{
    if clause.len() > 1 {
        let rest = clause.drop_first();
        assert(forall|j: int| 0 <= j < rest.len() ==> rest[j] == clause[j + 1]);
        lemma_clause_of_folded_literals(rest);
        assert(clause[0].literal());
        let head = seq![seq![clause[0]]];
        assert(clause[0].clause_list() == head);
        assert(folded(clause, Op::Or) == Formula::Binary(
            Op::Or,
            Box::new(clause[0]),
            Box::new(folded(rest, Op::Or)),
        ));
        assert(head.drop_last() =~= seq![]);
        assert(distributed(head.drop_last(), seq![rest]) =~= seq![]);
        assert(merged_with(head.last(), seq![rest]) =~= seq![seq![clause[0]] + rest]);
        assert(seq![clause[0]] + rest =~= clause);
        assert(distributed(head, seq![rest]) =~= seq![clause]);
    } else {
        assert(clause[0].literal());
        assert(clause[0].clause_list() == seq![seq![clause[0]]]);
        assert(seq![clause[0]] =~= clause);
    }
}

proof fn lemma_clauses_of_joined(clauses: Seq<Seq<Formula>>)
    requires
        no_empty_clause(clauses),
        all_parts(clauses, |x: Formula| x.literal()),
    ensures
        joined_clauses(clauses).clause_list() == clauses,
    decreases clauses.len(),
{
    let joined = clauses.map_values(|clause: Seq<Formula>| folded(clause, Op::Or));
    let first = clauses[0];
    assert forall|j: int| 0 <= j < first.len() implies (#[trigger] first[j]).literal() by {
        assert(clauses[0][j].literal());
    }
    lemma_clause_of_folded_literals(first);
    if clauses.len() > 1 {
        let rest = clauses.drop_first();
        assert forall|k: int| 0 <= k < rest.len() implies #[trigger] rest[k].len() > 0 by {
            assert(rest[k] == clauses[k + 1]);
        }
        assert forall|k: int, j: int| 0 <= k < rest.len() && 0 <= j < rest[k].len() implies (|x: Formula| x.literal())(#[trigger] rest[k][j]) by {
            assert(rest[k] == clauses[k + 1]);
            assert(clauses[k + 1][j].literal());
        }
        lemma_clauses_of_joined(rest);
        assert(joined.drop_first() =~= rest.map_values(
            |clause: Seq<Formula>| folded(clause, Op::Or),
        ));
        assert(seq![first] + rest =~= clauses);
    } else {
        assert(seq![first] =~= clauses);
    }
}

/// A formula already in Conjunctive Normal Form, its clauses and its
/// conjunctions associated to the right, is its own Conjunctive Normal
/// Form: the rewriting leaves it alone.
pub proof fn lemma_cnf_leaves_joined_clauses_alone(clauses: Seq<Seq<Formula>>)
    requires
        no_empty_clause(clauses),
        all_parts(clauses, |x: Formula| x.literal()),
    ensures
        joined_clauses(clauses).cnf_form() == joined_clauses(clauses),
{
    let f = joined_clauses(clauses);
    let joined = clauses.map_values(|clause: Seq<Formula>| folded(clause, Op::Or));
    let nnf = |x: Formula| x.in_nnf();
    assert forall|k: int| 0 <= k < joined.len() implies nnf(#[trigger] joined[k]) by {
        assert forall|j: int| 0 <= j < clauses[k].len() implies nnf(#[trigger] clauses[k][j]) by {
            assert(clauses[k][j].literal());
        }
        lemma_folded_closed(clauses[k], Op::Or, nnf);
    }
    lemma_folded_closed(joined, Op::And, nnf);
    lemma_nnf(f, seq![], 'A');
    lemma_clauses_of_joined(clauses);
}

} // verus!
