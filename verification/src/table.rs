//! Enumerating every assignment of a formula's variables.
//!
//! Shared by the truth table (ex04) and by SAT (ex07): both walk the same
//! 2^n rows, one only prints them while the other looks for a true one.

use vstd::prelude::*;
use vstd::arithmetic::power2::pow2;

use crate::cnf::lemma_cnf;
use crate::formula::{is_letter, slot, Formula};
use crate::nnf::lemma_nnf;

verus! {

/// The `k`-th letter of the alphabet, `A` being the 0-th.
pub open spec fn letter(k: int) -> char {
    ('A' as int + k) as char
}

/// The letter of the slot `k`.
fn letter_of(k: usize) -> (c: char)
    requires
        k < 26,
    ensures
        c == letter(k as int),
{
    ((65u8 + k as u8) as char)
}

impl Formula {
    /// The variables of the formula among the first `k` letters, in
    /// alphabetical order.
    pub open spec fn variables_among(self, k: nat) -> Seq<char>
        decreases k,
    {
        if k == 0 {
            seq![]
        } else {
            let rest = self.variables_among((k - 1) as nat);
            if self.occurs(letter(k - 1)) {
                rest.push(letter(k - 1))
            } else {
                rest
            }
        }
    }

    /// The distinct variables of the formula, in alphabetical order.
    pub open spec fn variable_list(self) -> Seq<char> {
        self.variables_among(26)
    }

    /// The distinct variables of the formula, in alphabetical order.
    ///
    /// `AB&A|` holds two of them, `['A', 'B']`: a variable used several
    /// times is reported once.
    pub fn variables(&self) -> (names: Vec<char>)
        requires
            self.wf(),
        ensures
            names@ == self.variable_list(),
    {
        // One slot per letter: marking is idempotent, and reading the slots
        // back in order yields the variables sorted and deduplicated.
        let mut seen = [false; 26];
        self.mark_variables(&mut seen);

        let mut names = Vec::new();
        for k in 0..26
            invariant
                forall|i: int| 0 <= i < 26 ==> seen@[i] == self.occurs(letter(i)),
                names@ == self.variables_among(k as nat),
        {
            if seen[k] {
                names.push(letter_of(k));
            }
        }
        names
    }

    fn mark_variables(&self, seen: &mut [bool; 26])
        requires
            self.wf(),
        ensures
            forall|i: int|
                0 <= i < 26 ==> final(seen)@[i] == (old(seen)@[i] || self.occurs(letter(i))),
        decreases self,
    {
        match self {
            Formula::Value(_) => {},
            Formula::Var(name) => {
                seen[(*name as u32 - 'A' as u32) as usize] = true;
            },
            Formula::Not(inner) => inner.mark_variables(seen),
            Formula::Binary(_, left, right) => {
                left.mark_variables(seen);
                right.mark_variables(seen);
            },
        }
    }
}

/// Every variable of a well-formed formula is a letter.
pub proof fn lemma_wf_variables_are_letters(f: Formula, c: char)
    requires
        f.wf(),
        f.occurs(c),
    ensures
        is_letter(c),
    decreases f,
{
    match f {
        Formula::Not(inner) => lemma_wf_variables_are_letters(*inner, c),
        Formula::Binary(_, left, right) => {
            if left.occurs(c) {
                lemma_wf_variables_are_letters(*left, c);
            } else {
                lemma_wf_variables_are_letters(*right, c);
            }
        },
        _ => {},
    }
}

proof fn lemma_variables_among(f: Formula, k: nat)
    requires
        k <= 26,
    ensures
        forall|i: int|
            0 <= i < f.variables_among(k).len() ==> {
                let c = #[trigger] f.variables_among(k)[i];
                &&& is_letter(c)
                &&& slot(c) < k
                &&& f.occurs(c)
            },
        forall|i: int, j: int|
            0 <= i < j < f.variables_among(k).len() ==> slot(#[trigger] f.variables_among(k)[i])
                < slot(#[trigger] f.variables_among(k)[j]),
        forall|i: int|
            0 <= i < k && #[trigger] f.occurs(letter(i)) ==> f.variables_among(k).contains(
                letter(i),
            ),
    decreases k,
{
    if k > 0 {
        lemma_variables_among(f, (k - 1) as nat);
        let rest = f.variables_among((k - 1) as nat);
        let list = f.variables_among(k);
        assert forall|i: int| 0 <= i < k && #[trigger] f.occurs(letter(i)) implies list.contains(
            letter(i),
        ) by {
            if i < k - 1 {
                let idx = choose|idx: int| 0 <= idx < rest.len() && rest[idx] == letter(i);
                assert(list[idx] == letter(i));
            } else {
                assert(list[list.len() - 1] == letter(i));
            }
        }
    }
}

/// The variables of a well-formed formula are listed in strictly
/// increasing alphabetical order, each exactly when it occurs.
pub proof fn lemma_variable_list(f: Formula)
    requires
        f.wf(),
    ensures
        forall|i: int|
            0 <= i < f.variable_list().len() ==> is_letter(#[trigger] f.variable_list()[i]),
        forall|i: int, j: int|
            0 <= i < j < f.variable_list().len() ==> (#[trigger] f.variable_list()[i] as int) < (
            #[trigger] f.variable_list()[j] as int),
        forall|c: char| #[trigger] f.variable_list().contains(c) <==> f.occurs(c),
        f.variable_list().len() <= 26,
{
    lemma_variables_among(f, 26);
    let list = f.variable_list();
    assert forall|c: char| f.occurs(c) implies #[trigger] list.contains(c) by {
        lemma_wf_variables_are_letters(f, c);
        assert(letter(slot(c)) == c);
        assert(f.occurs(letter(slot(c))));
    }
    assert forall|c: char| #[trigger] list.contains(c) implies f.occurs(c) by {
        let idx = choose|idx: int| 0 <= idx < list.len() && list[idx] == c;
        assert(f.occurs(list[idx]));
    }
    lemma_variables_among_length(f, 26);
}

/// A letter occurs in a formula exactly when its text in reverse polish
/// notation writes it; what occurs is always written.
proof fn lemma_occurs_written(f: Formula, c: char)
    ensures
        f.occurs(c) ==> f.rpn().contains(c),
        is_letter(c) && f.rpn().contains(c) ==> f.occurs(c),
    decreases f,
{
    match f {
        Formula::Value(b) => {
            if f.rpn().contains(c) {
                let idx = choose|idx: int| 0 <= idx < f.rpn().len() && f.rpn()[idx] == c;
                if b {
                    assert(f.rpn() =~= seq!['1']);
                } else {
                    assert(f.rpn() =~= seq!['0']);
                }
            }
        },
        Formula::Var(name) => {
            assert(f.rpn() =~= seq![name]);
            if f.occurs(c) {
                assert(f.rpn()[0] == c);
            }
        },
        Formula::Not(inner) => {
            lemma_occurs_written(*inner, c);
            let text = f.rpn();
            assert(text == inner.rpn().push('!'));
            if inner.rpn().contains(c) {
                let idx = choose|idx: int| 0 <= idx < inner.rpn().len() && inner.rpn()[idx] == c;
                assert(text[idx] == c);
            }
            if is_letter(c) && text.contains(c) {
                let idx = choose|idx: int| 0 <= idx < text.len() && text[idx] == c;
                assert(idx < inner.rpn().len());
                assert(inner.rpn()[idx] == c);
            }
        },
        Formula::Binary(op, left, right) => {
            lemma_occurs_written(*left, c);
            lemma_occurs_written(*right, c);
            let l = left.rpn();
            let r = right.rpn();
            let text = f.rpn();
            assert(text == (l + r).push(op.symbol()));
            if l.contains(c) {
                let idx = choose|idx: int| 0 <= idx < l.len() && l[idx] == c;
                assert(text[idx] == c);
            }
            if r.contains(c) {
                let idx = choose|idx: int| 0 <= idx < r.len() && r[idx] == c;
                assert(text[l.len() + idx] == c);
            }
            if is_letter(c) && text.contains(c) {
                let idx = choose|idx: int| 0 <= idx < text.len() && text[idx] == c;
                assert(idx < l.len() + r.len());
                if idx < l.len() {
                    assert(l[idx] == c);
                } else {
                    assert(r[idx - l.len()] == c);
                }
            }
        },
    }
}

/// The variables of a well-formed formula are the letters that its text
/// writes: a letter is listed by [`Formula::variables`] exactly when it is
/// written in the formula, and nothing else is listed.
pub proof fn lemma_variables_are_written(f: Formula, c: char)
    requires
        f.wf(),
    ensures
        f.variable_list().contains(c) <==> (is_letter(c) && f.rpn().contains(c)),
{
    lemma_variable_list(f);
    lemma_occurs_written(f, c);
    if f.occurs(c) {
        lemma_wf_variables_are_letters(f, c);
    }
}

proof fn lemma_variables_among_length(f: Formula, k: nat)
    ensures
        f.variables_among(k).len() <= k,
    decreases k,
{
    if k > 0 {
        lemma_variables_among_length(f, (k - 1) as nat);
    }
}

/// Bit `j` of the number `i` written on `n` bits, bit 0 being the most
/// significant one.
pub open spec fn bit(i: nat, n: nat, j: int) -> bool {
    (i / pow2((n - 1 - j) as nat)) % 2 == 1
}

/// The values of line `i` of a truth table over `n` variables: `i` in
/// binary, the first variable being the most significant bit.
pub open spec fn line_values(n: nat, i: nat) -> Seq<bool> {
    Seq::new(n, |j: int| bit(i, n, j))
}

/// The assignment of the 26 letters that gives the variable `names[j]` the
/// value `values[j]`, and every other letter false.
pub open spec fn assignment(names: Seq<char>, values: Seq<bool>) -> Seq<bool> {
    Seq::new(
        26,
        |k: int| exists|j: int| 0 <= j < names.len() && names[j] == letter(k) && #[trigger] values[j],
    )
}

/// Distinct letters, in strictly increasing order.
pub open spec fn sorted_letters(names: Seq<char>) -> bool {
    &&& names.len() <= 26
    &&& forall|j: int| 0 <= j < names.len() ==> is_letter(#[trigger] names[j])
    &&& forall|j: int, k: int|
        0 <= j < k < names.len() ==> (#[trigger] names[j] as int) < (#[trigger] names[k] as int)
}

impl Formula {
    /// The number of lines of the truth table: 2^n for n variables.
    pub open spec fn line_count(self) -> nat {
        pow2(self.variable_list().len())
    }

    /// Whether the truth table has a line `i`.
    pub open spec fn has_line(self, i: nat) -> bool {
        i < self.line_count()
    }

    /// The values of the variables on line `i` of the truth table, in the
    /// order of [`Formula::variable_list`].
    pub open spec fn line(self, i: nat) -> Seq<bool> {
        line_values(self.variable_list().len(), i)
    }

    /// What the formula evaluates to on line `i` of the truth table.
    pub open spec fn line_result(self, i: nat) -> bool {
        self.value(assignment(self.variable_list(), self.line(i)))
    }

    /// Whether some assignment of the variables makes the formula true.
    pub open spec fn satisfiable(self) -> bool {
        exists|env: Seq<bool>| env.len() == 26 && #[trigger] self.value(env)
    }
}

/// Writes line `i` of the table: the values in table order into `line`,
/// and the same values by letter into `values`.
fn fill_line(names: &Vec<char>, i: u64, line: &mut Vec<bool>, values: &mut [bool; 26])
    requires
        sorted_letters(names@),
        old(line)@.len() == names@.len(),
        forall|k: int|
            0 <= k < 26 && !names@.contains(letter(k)) ==> !#[trigger] old(values)@[k],
    ensures
        final(line)@ == line_values(names@.len(), i as nat),
        final(values)@ == assignment(names@, line_values(names@.len(), i as nat)),
{
    let count = names.len();
    let ghost n = count as nat;
    for j in 0..count
        invariant
            count == names@.len(),
            n == count,
            sorted_letters(names@),
            line@.len() == count,
            forall|jj: int| 0 <= jj < j ==> line@[jj] == bit(i as nat, n, jj),
            forall|jj: int| 0 <= jj < j ==> values@[slot(#[trigger] names@[jj])] == bit(i as nat, n, jj),
            forall|k: int| 0 <= k < 26 && !names@.contains(letter(k)) ==> !#[trigger] values@[k],
    {
        let shift = (count - 1 - j) as u64;
        let ghost q = i >> shift;
        proof {
            vstd::bits::lemma_u64_shr_is_div(i, shift);
            assert((q & 1u64 == 1u64) == (q % 2 == 1)) by (bit_vector);
        }
        let value = (i >> shift) & 1 == 1;
        assert(value == bit(i as nat, n, j as int));
        line.set(j, value);
        assert(line@[j as int] == value);
        let name = names[j];
        values[(name as u32 - 'A' as u32) as usize] = value;
        proof {
            assert forall|jj: int| 0 <= jj < j implies values@[slot(#[trigger] names@[jj])] == bit(i as nat, n, jj) by {
                assert((names@[jj] as int) < (names@[j as int] as int));
            }
            assert forall|k: int| 0 <= k < 26 && !names@.contains(letter(k)) implies !#[trigger] values@[k] by {
                if k == slot(name) {
                    assert(letter(k) == name);
                    assert(names@.contains(name));
                }
            }
        }
    }
    let ghost expected = assignment(names@, line_values(n, i as nat));
    assert forall|k: int| 0 <= k < 26 implies values@[k] == #[trigger] expected[k] by {
        if names@.contains(letter(k)) {
            let j = choose|j: int| 0 <= j < names@.len() && names@[j] == letter(k);
            assert(slot(names@[j]) == k);
            if values@[k] {
                assert(line_values(n, i as nat)[j]);
            }
            if expected[k] {
                let jj = choose|jj: int|
                    0 <= jj < names@.len() && names@[jj] == letter(k) && #[trigger] line_values(
                        n,
                        i as nat,
                    )[jj];
                if jj != j {
                    if jj < j {
                        assert((names@[jj] as int) < (names@[j] as int));
                    } else {
                        assert((names@[j] as int) < (names@[jj] as int));
                    }
                }
            }
        } else {
            if expected[k] {
                let jj = choose|jj: int|
                    0 <= jj < names@.len() && names@[jj] == letter(k) && #[trigger] line_values(
                        n,
                        i as nat,
                    )[jj];
                assert(names@.contains(names@[jj]));
            }
        }
    }
    assert(values@ =~= expected);
    assert(line@ =~= line_values(n, i as nat));
}

/// A copy of a line of values.
fn copy_line(line: &Vec<bool>) -> (copy: Vec<bool>)
    ensures
        copy@ == line@,
{
    let mut copy = Vec::new();
    for j in 0..line.len()
        invariant
            copy@ == line@.take(j as int),
    {
        copy.push(line[j]);
        assert(copy@ =~= line@.take(j + 1));
    }
    assert(line@.take(line.len() as int) =~= line@);
    copy
}

/// Letters left out of `names` are false in their assignment.
proof fn lemma_assignment_outside(names: Seq<char>, values: Seq<bool>)
    ensures
        forall|k: int|
            0 <= k < 26 && !names.contains(letter(k)) ==> !#[trigger] assignment(names, values)[k],
{
    assert forall|k: int| 0 <= k < 26 && !names.contains(letter(k)) implies !#[trigger] assignment(
        names,
        values,
    )[k] by {
        if assignment(names, values)[k] {
            let j = choose|j: int|
                0 <= j < names.len() && names[j] == letter(k) && #[trigger] values[j];
            assert(names.contains(names[j]));
        }
    }
}

/// The walk over the lines: the variables, a buffer for the values of a
/// line, the assignment by letter, and the number of lines.
fn start_lines(f: &Formula) -> (walk: (Vec<char>, Vec<bool>, [bool; 26], u64))
    requires
        f.wf(),
    ensures
        walk.0@ == f.variable_list(),
        sorted_letters(walk.0@),
        walk.1@.len() == walk.0@.len(),
        forall|k: int| 0 <= k < 26 ==> !#[trigger] walk.2@[k],
        walk.3 == f.line_count(),
{
    let names = f.variables();
    proof {
        lemma_variable_list(*f);
    }
    let count = names.len();
    let mut line: Vec<bool> = Vec::new();
    for _j in 0..count
        invariant
            line@.len() == _j,
    {
        line.push(false);
    }
    proof {
        vstd::bits::lemma_u64_pow2_no_overflow(count as nat);
        vstd::bits::lemma_u64_shl_is_mul(1, count as u64);
    }
    let total: u64 = 1u64 << (count as u64);
    (names, line, [false; 26], total)
}

impl Formula {
    /// Every line of the truth table, in order: the values of the
    /// variables, in the order of [`Formula::variables`], and what the
    /// formula evaluates to for them.
    pub fn rows(&self) -> (rows: Vec<(Vec<bool>, bool)>)
        requires
            self.wf(),
        ensures
            rows@.len() == self.line_count(),
            forall|i: int|
                0 <= i < rows@.len() ==> (#[trigger] rows@[i]).0@ == self.line(i as nat)
                    && rows@[i].1 == self.line_result(i as nat),
    {
        let (names, mut line, mut values, total) = start_lines(self);
        let mut rows: Vec<(Vec<bool>, bool)> = Vec::new();
        for i in 0..total
            invariant
                self.wf(),
                names@ == self.variable_list(),
                sorted_letters(names@),
                line@.len() == names@.len(),
                forall|k: int| 0 <= k < 26 && !names@.contains(letter(k)) ==> !#[trigger] values@[k],
                total == self.line_count(),
                rows@.len() == i,
                forall|r: int|
                    0 <= r < i ==> (#[trigger] rows@[r]).0@ == self.line(r as nat) && rows@[r].1
                        == self.line_result(r as nat),
        {
            fill_line(&names, i, &mut line, &mut values);
            let result = self.eval(&values);
            rows.push((copy_line(&line), result));
            proof {
                lemma_assignment_outside(names@, line@);
            }
        }
        rows
    }

    /// Calls `row` once per line of the truth table.
    ///
    /// Rows come in the order the subject asks for: the first variable of
    /// [`Formula::variables`] is the most significant bit, so the lines count
    /// up in binary from all-false to all-true.
    ///
    /// `row` receives the values of the variables, in the same order as
    /// [`Formula::variables`], and what the formula evaluates to for them:
    /// line `i` is `(self.line(i), self.line_result(i))`. A formula without
    /// variables still yields exactly one row.
    ///
    /// The contract asks `row` to accept only true lines of the table, and
    /// states that every line of the table is handed to `row`. The order of
    /// the calls, and that there is no other call, is not stated: the
    /// contract speaks of the calls one by one. [`Formula::rows`] states the
    /// whole table, line by line, in order.
    pub fn for_each_row<F: FnMut(&[bool], bool)>(&self, row: F)
        requires
            self.wf(),
            forall|state: F, values: &[bool], result: bool|
                (exists|i: nat|
                    i < self.line_count() && values@ == self.line(i) && result
                        == self.line_result(i)) ==> call_requires(state, (values, result)),
        ensures
            forall|i: nat|
                #[trigger] self.has_line(i) ==> exists|shown: &[bool]|
                    shown@ == self.line(i) && #[trigger] call_ensures(
                        row,
                        (shown, self.line_result(i)),
                        (),
                    ),
    {
        broadcast use vstd::function::group_function_axioms;

        let ghost given = row;
        let mut callback = row;
        let (names, mut line, mut values, total) = start_lines(self);
        // The line handed to `callback` at each call so far.
        let ghost mut handed: Seq<&[bool]> = Seq::empty();
        let mut i: u64 = 0;
        while i < total
            invariant
                callback == given,
                i <= total,
                handed.len() == i,
                forall|r: int|
                    0 <= r < i ==> (#[trigger] handed[r])@ == self.line(r as nat) && call_ensures(
                        given,
                        (handed[r], self.line_result(r as nat)),
                        (),
                    ),
                self.wf(),
                names@ == self.variable_list(),
                sorted_letters(names@),
                line@.len() == names@.len(),
                forall|k: int| 0 <= k < 26 && !names@.contains(letter(k)) ==> !#[trigger] values@[k],
                total == self.line_count(),
                forall|state: F, values: &[bool], result: bool|
                    (exists|i: nat|
                        i < self.line_count() && values@ == self.line(i) && result
                            == self.line_result(i)) ==> call_requires(state, (values, result)),
            decreases total - i,
        {
            fill_line(&names, i, &mut line, &mut values);
            let result = self.eval(&values);
            let current = line.as_slice();
            assert(current@ == self.line(i as nat));
            assert(result == self.line_result(i as nat));
            callback(current, result);
            proof {
                lemma_assignment_outside(names@, line@);
                handed = handed.push(current);
            }
            i = i + 1;
        }
        assert forall|k: nat| #[trigger] self.has_line(k) implies exists|
            shown: &[bool],
        | shown@ == self.line(k) && #[trigger] call_ensures(
            row,
            (shown, self.line_result(k)),
            (),
        ) by {
            assert(handed[k as int]@ == self.line(k));
        }
    }

    /// Whether some assignment of the variables makes the formula true.
    ///
    /// Brute force over the truth table, which the subject allows: its
    /// maximum time complexity for ex07 is O(2^n). The walk stops at the
    /// first row that comes out true, so only an unsatisfiable formula
    /// actually costs the full 2^n.
    pub fn is_satisfiable(&self) -> (r: bool)
        requires
            self.wf(),
        ensures
            r == self.satisfiable(),
    {
        let (names, mut line, mut values, total) = start_lines(self);
        for i in 0..total
            invariant
                self.wf(),
                names@ == self.variable_list(),
                sorted_letters(names@),
                line@.len() == names@.len(),
                forall|k: int| 0 <= k < 26 && !names@.contains(letter(k)) ==> !#[trigger] values@[k],
                total == self.line_count(),
                forall|r: nat| r < i ==> !#[trigger] self.line_result(r),
        {
            fill_line(&names, i, &mut line, &mut values);
            if self.eval(&values) {
                proof {
                    assert(values@.len() == 26);
                }
                return true;
            }
            proof {
                lemma_assignment_outside(names@, line@);
            }
        }
        proof {
            lemma_satisfiable_on_some_line(*self);
        }
        false
    }
}

/// The index of the line of the truth table over `names` that gives each
/// variable its value in `env`.
pub open spec fn line_index(env: Seq<bool>, names: Seq<char>) -> nat
    decreases names.len(),
{
    if names.len() == 0 {
        0
    } else {
        2 * line_index(env, names.drop_last()) + if env[slot(names.last())] {
            1nat
        } else {
            0nat
        }
    }
}

proof fn lemma_line_index(env: Seq<bool>, names: Seq<char>)
    ensures
        line_index(env, names) < pow2(names.len()),
        forall|j: int|
            0 <= j < names.len() ==> bit(line_index(env, names), names.len(), j) == env[slot(
                #[trigger] names[j],
            )],
    decreases names.len(),
{
    vstd::arithmetic::power2::lemma_pow2_pos(names.len());
    if names.len() == 0 {
        vstd::arithmetic::power2::lemma2_to64();
    } else {
        let n = names.len();
        let m = (n - 1) as nat;
        let init = names.drop_last();
        lemma_line_index(env, init);
        let prev = line_index(env, init);
        let i = line_index(env, names);
        let b: nat = if env[slot(names.last())] {
            1
        } else {
            0
        };
        assert(i == 2 * prev + b);
        vstd::arithmetic::power2::lemma_pow2_unfold(n);
        assert(i / 2 == prev);
        assert forall|j: int| 0 <= j < n implies bit(i, n, j) == env[slot(#[trigger] names[j])] by {
            lemma_bit_of_double(prev, b, n, j);
            if j < m {
                assert(init[j] == names[j]);
            }
        }
    }
}

/// The bits of `2 * prev + b` on `n` bits: those of `prev` on `n - 1` bits,
/// then `b`.
proof fn lemma_bit_of_double(prev: nat, b: nat, n: nat, j: int)
    requires
        b < 2,
        0 <= j < n,
    ensures
        j == n - 1 ==> (bit(2 * prev + b, n, j) <==> b == 1),
        j < n - 1 ==> bit(2 * prev + b, n, j) == bit(prev, (n - 1) as nat, j),
{
    let i = 2 * prev + b;
    if j == n - 1 {
        vstd::arithmetic::power2::lemma2_to64();
        assert(pow2((n - 1 - j) as nat) == 1);
        assert(i / 1 == i);
        assert(i % 2 == b);
    } else {
        let e = (n - 2 - j) as nat;
        assert((n - 1 - j) as nat == e + 1);
        vstd::arithmetic::power2::lemma_pow2_unfold(e + 1);
        vstd::arithmetic::power2::lemma_pow2_pos(e);
        vstd::arithmetic::div_mod::lemma_div_denominator(i as int, 2, pow2(e) as int);
        assert(i / 2 == prev);
        assert(i / pow2(e + 1) == prev / pow2(e));
    }
}

/// The number that `digits` writes in binary, the first digit being the
/// most significant one.
pub open spec fn binary(digits: Seq<bool>) -> nat
    decreases digits.len(),
{
    if digits.len() == 0 {
        0
    } else {
        2 * binary(digits.drop_last()) + if digits.last() {
            1nat
        } else {
            0nat
        }
    }
}

proof fn lemma_line_values_binary(n: nat, i: nat)
    requires
        i < pow2(n),
    ensures
        binary(line_values(n, i)) == i,
    decreases n,
{
    if n == 0 {
        vstd::arithmetic::power2::lemma2_to64();
    } else {
        let prev = i / 2;
        let b = i % 2;
        assert(i == 2 * prev + b);
        vstd::arithmetic::power2::lemma_pow2_unfold(n);
        lemma_line_values_binary((n - 1) as nat, prev);
        let digits = line_values(n, i);
        assert forall|j: int| 0 <= j < n - 1 implies #[trigger] digits.drop_last()[j] == line_values(
            (n - 1) as nat,
            prev,
        )[j] by {
            lemma_bit_of_double(prev, b, n, j);
        }
        assert(digits.drop_last() =~= line_values((n - 1) as nat, prev));
        lemma_bit_of_double(prev, b, n, n - 1);
    }
}

impl Formula {
    /// The lines of the truth table count up in binary from all-false to
    /// all-true: line `i` holds one value per variable, and read as a
    /// binary number whose most significant digit is the first variable,
    /// it is `i`.
    pub proof fn lemma_lines_count_up(self, i: nat)
        requires
            self.has_line(i),
        ensures
            self.line(i).len() == self.variable_list().len(),
            binary(self.line(i)) == i,
    {
        lemma_line_values_binary(self.variable_list().len(), i);
    }
}

/// The value of a formula depends only on the values of its variables.
pub proof fn lemma_value_depends_on_variables(f: Formula, env1: Seq<bool>, env2: Seq<bool>)
    requires
        forall|c: char| #[trigger] f.occurs(c) ==> env1[slot(c)] == env2[slot(c)],
    ensures
        f.value(env1) == f.value(env2),
    decreases f,
{
    match f {
        Formula::Not(inner) => {
            assert forall|c: char| #[trigger] inner.occurs(c) implies env1[slot(c)] == env2[slot(c)] by {
                assert(f.occurs(c));
            }
            lemma_value_depends_on_variables(*inner, env1, env2);
        },
        Formula::Binary(_, left, right) => {
            assert forall|c: char| #[trigger] left.occurs(c) implies env1[slot(c)] == env2[slot(c)] by {
                assert(f.occurs(c));
            }
            assert forall|c: char| #[trigger] right.occurs(c) implies env1[slot(c)] == env2[slot(c)] by {
                assert(f.occurs(c));
            }
            lemma_value_depends_on_variables(*left, env1, env2);
            lemma_value_depends_on_variables(*right, env1, env2);
        },
        Formula::Var(c) => {
            assert(f.occurs(c));
        },
        _ => {},
    }
}

/// A well-formed formula is satisfiable exactly when some line of its
/// truth table comes out true.
pub proof fn lemma_satisfiable_on_some_line(f: Formula)
    requires
        f.wf(),
    ensures
        f.satisfiable() <==> exists|i: nat| i < f.line_count() && #[trigger] f.line_result(i),
{
    let names = f.variable_list();
    lemma_variable_list(f);
    if exists|i: nat| i < f.line_count() && #[trigger] f.line_result(i) {
        let i = choose|i: nat| i < f.line_count() && #[trigger] f.line_result(i);
        let env = assignment(names, f.line(i));
        assert(env.len() == 26 && f.value(env));
    }
    if f.satisfiable() {
        let env = choose|env: Seq<bool>| env.len() == 26 && #[trigger] f.value(env);
        let i = line_index(env, names);
        lemma_line_index(env, names);
        let line_env = assignment(names, f.line(i));
        assert forall|c: char| #[trigger] f.occurs(c) implies env[slot(c)] == line_env[slot(c)] by {
            lemma_wf_variables_are_letters(f, c);
            assert(names.contains(c));
            let j = choose|j: int| 0 <= j < names.len() && names[j] == c;
            assert(letter(slot(c)) == c);
            assert(f.line(i)[j] == env[slot(c)]);
            if line_env[slot(c)] {
                let jj = choose|jj: int|
                    0 <= jj < names.len() && names[jj] == letter(slot(c)) && #[trigger] f.line(
                        i,
                    )[jj];
                if jj != j {
                    if jj < j {
                        assert((names[jj] as int) < (names[j] as int));
                    } else {
                        assert((names[j] as int) < (names[jj] as int));
                    }
                }
            }
        }
        lemma_value_depends_on_variables(f, env, line_env);
        assert(f.line_result(i));
    }
}

impl Formula {
    /// What line `i` of the truth table gives is the value of the formula
    /// under any assignment that gives each variable its value on that
    /// line, the `j`-th variable the `j`-th value.
    pub proof fn lemma_line_result_is_value(self, i: nat, env: Seq<bool>)
        requires
            self.wf(),
            env.len() == 26,
            forall|j: int|
                0 <= j < self.variable_list().len() ==> env[slot(#[trigger] self.variable_list()[j])]
                    == self.line(i)[j],
        ensures
            self.line_result(i) == self.value(env),
    {
        let names = self.variable_list();
        lemma_variable_list(self);
        let line_env = assignment(names, self.line(i));
        assert forall|c: char| #[trigger] self.occurs(c) implies env[slot(c)] == line_env[slot(
            c,
        )] by {
            lemma_wf_variables_are_letters(self, c);
            assert(names.contains(c));
            let j = choose|j: int| 0 <= j < names.len() && names[j] == c;
            assert(letter(slot(c)) == c);
            assert(self.line(i)[j] == env[slot(c)]);
            if line_env[slot(c)] {
                let jj = choose|jj: int|
                    0 <= jj < names.len() && names[jj] == letter(slot(c)) && #[trigger] self.line(
                        i,
                    )[jj];
                if jj != j {
                    if jj < j {
                        assert((names[jj] as int) < (names[j] as int));
                    } else {
                        assert((names[j] as int) < (names[jj] as int));
                    }
                }
            }
        }
        lemma_value_depends_on_variables(self, env, line_env);
    }
}

proof fn lemma_same_variables_among(f: Formula, g: Formula, k: nat)
    requires
        forall|c: char| #[trigger] f.occurs(c) == g.occurs(c),
    ensures
        f.variables_among(k) == g.variables_among(k),
    decreases k,
{
    if k > 0 {
        lemma_same_variables_among(f, g, (k - 1) as nat);
        assert(f.occurs(letter(k - 1)) == g.occurs(letter(k - 1)));
    }
}

/// Two formulas with the same variables and the same value under every
/// assignment have the same truth table, line by line, and are satisfiable
/// alike.
pub proof fn lemma_same_truth_table(f: Formula, g: Formula)
    requires
        forall|c: char| #[trigger] f.occurs(c) == g.occurs(c),
        forall|env: Seq<bool>| #[trigger] f.value(env) == g.value(env),
    ensures
        f.variable_list() == g.variable_list(),
        f.line_count() == g.line_count(),
        forall|i: nat| #[trigger] f.line(i) == g.line(i) && f.line_result(i) == g.line_result(i),
        f.satisfiable() == g.satisfiable(),
{
    lemma_same_variables_among(f, g, 26);
    assert forall|i: nat| #[trigger] f.line(i) == g.line(i) && f.line_result(i) == g.line_result(
        i,
    ) by {
        assert(f.value(assignment(f.variable_list(), f.line(i))) == g.value(
            assignment(f.variable_list(), f.line(i)),
        ));
    }
    if f.satisfiable() {
        let env = choose|env: Seq<bool>| env.len() == 26 && #[trigger] f.value(env);
        assert(g.value(env));
    }
    if g.satisfiable() {
        let env = choose|env: Seq<bool>| env.len() == 26 && #[trigger] g.value(env);
        assert(f.value(env));
    }
}

/// The Negation Normal Form and the Conjunctive Normal Form of a formula
/// have the truth table of the formula, line by line, and are satisfiable
/// exactly when it is.
pub proof fn lemma_normal_forms_keep_truth_table(f: Formula)
    ensures
        f.nnf_form().variable_list() == f.variable_list(),
        f.cnf_form().variable_list() == f.variable_list(),
        forall|i: nat|
            #![trigger f.line(i)]
            f.nnf_form().line(i) == f.line(i) && f.nnf_form().line_result(i) == f.line_result(i)
                && f.cnf_form().line(i) == f.line(i) && f.cnf_form().line_result(i)
                == f.line_result(i),
        f.nnf_form().satisfiable() == f.satisfiable(),
        f.cnf_form().satisfiable() == f.satisfiable(),
{
    assert forall|c: char| #[trigger] f.nnf_form().occurs(c) == f.occurs(c) by {
        lemma_nnf(f, seq![], c);
    }
    assert forall|env: Seq<bool>| #[trigger] f.nnf_form().value(env) == f.value(env) by {
        lemma_nnf(f, env, 'A');
    }
    assert forall|c: char| #[trigger] f.cnf_form().occurs(c) == f.occurs(c) by {
        lemma_cnf(f, seq![], c);
    }
    assert forall|env: Seq<bool>| #[trigger] f.cnf_form().value(env) == f.value(env) by {
        lemma_cnf(f, env, 'A');
    }
    lemma_same_truth_table(f.nnf_form(), f);
    lemma_same_truth_table(f.cnf_form(), f);
}

/// A formula without variables has a truth table of exactly one line,
/// with no value in it.
pub proof fn lemma_no_variable_single_line(f: Formula)
    requires
        f.wf(),
        forall|c: char| !#[trigger] f.occurs(c),
    ensures
        f.variable_list().len() == 0,
        f.line_count() == 1,
        f.line(0) == Seq::<bool>::empty(),
{
    lemma_variable_list(f);
    if f.variable_list().len() > 0 {
        assert(f.variable_list().contains(f.variable_list()[0]));
    }
    vstd::arithmetic::power2::lemma2_to64();
    assert(f.line(0) =~= Seq::<bool>::empty());
}

} // verus!
