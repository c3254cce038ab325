//! What each exercise of the subject computes from a formula written in
//! reverse polish notation.

use vstd::prelude::*;
use vstd::string::*;

use crate::formula::{push_char, Formula};
use crate::parser::{lemma_parsed_wf, parse, parse_constants, parsed, ParseError};

verus! {

/// The assignment that makes every variable false.
pub open spec fn all_false() -> Seq<bool> {
    Seq::new(26, |k: int| false)
}

/// The value of a formula without variables, `false` when the text is not
/// one.
pub fn eval_formula(formula: &str) -> (value: bool)
    ensures
        value == match parsed(formula@, false) {
            Ok(f) => f.value(all_false()),
            Err(_) => false,
        },
{
    match parse_constants(formula) {
        Ok(tree) => {
            proof {
                lemma_parsed_wf(formula@, false, 'A');
            }
            let values = [false; 26];
            assert(values@ =~= all_false());
            tree.eval(&values)
        },
        Err(_) => false,
    }
}

/// The Negation Normal Form of a formula, in reverse polish notation; an
/// empty text when the formula is invalid.
pub fn negation_normal_form(formula: &str) -> (nnf: String)
    ensures
        nnf@ == match parsed(formula@, true) {
            Ok(f) => f.nnf_form().rpn(),
            Err(_) => Seq::empty(),
        },
{
    match parse(formula) {
        Ok(tree) => tree.nnf().to_string(),
        Err(_) => String::new(),
    }
}

/// The Conjunctive Normal Form of a formula, in reverse polish notation; an
/// empty text when the formula is invalid.
pub fn conjunctive_normal_form(formula: &str) -> (cnf: String)
    ensures
        cnf@ == match parsed(formula@, true) {
            Ok(f) => f.cnf_form().rpn(),
            Err(_) => Seq::empty(),
        },
{
    match parse(formula) {
        Ok(tree) => tree.cnf().to_string(),
        Err(_) => String::new(),
    }
}

/// Whether the formula is satisfiable; an invalid formula is not.
pub fn sat(formula: &str) -> (satisfiable: bool)
    ensures
        satisfiable == match parsed(formula@, true) {
            Ok(f) => f.satisfiable(),
            Err(_) => false,
        },
{
    match parse(formula) {
        Ok(tree) => {
            proof {
                lemma_parsed_wf(formula@, true, 'A');
            }
            tree.is_satisfiable()
        },
        Err(_) => false,
    }
}

/// The clause list of a formula, as texts in reverse polish notation.
pub fn clause_strings(tree: &Formula) -> (texts: Vec<Vec<String>>)
    ensures
        texts@.len() == tree.clause_list().len(),
        forall|k: int|
            0 <= k < texts@.len() ==> (#[trigger] texts@[k])@.len() == tree.clause_list()[k].len(),
        forall|k: int, j: int|
            0 <= k < texts@.len() && 0 <= j < texts@[k]@.len() ==> (#[trigger] texts@[k]@[j])@
                == tree.clause_list()[k][j].rpn(),
{
    let clauses = tree.clauses();
    let ghost list = tree.clause_list();
    let mut texts: Vec<Vec<String>> = Vec::new();
    for k in 0..clauses.len()
        invariant
            crate::cnf::clauses_view(clauses) == list,
            texts@.len() == k,
            forall|kk: int|
                0 <= kk < k ==> (#[trigger] texts@[kk])@.len() == list[kk].len(),
            forall|kk: int, j: int|
                0 <= kk < k && 0 <= j < texts@[kk]@.len() ==> (#[trigger] texts@[kk]@[j])@
                    == list[kk][j].rpn(),
    {
        assert(list[k as int] == clauses[k as int]@);
        let clause = &clauses[k];
        let mut text: Vec<String> = Vec::new();
        for j in 0..clause.len()
            invariant
                clause@ == list[k as int],
                text@.len() == j,
                forall|jj: int| 0 <= jj < j ==> (#[trigger] text@[jj])@ == list[k as int][jj].rpn(),
        {
            text.push(clause[j].to_string());
        }
        texts.push(text);
    }
    texts
}

/// The digit a truth value prints as.
pub open spec fn digit(b: bool) -> char {
    if b {
        '1'
    } else {
        '0'
    }
}

/// One cell per name: ` A |`.
pub open spec fn name_cells(names: Seq<char>) -> Seq<char>
    decreases names.len(),
{
    if names.len() == 0 {
        seq![]
    } else {
        name_cells(names.drop_last()) + seq![' ', names.last(), ' ', '|']
    }
}

/// One cell per value: ` 0 |` or ` 1 |`.
pub open spec fn value_cells(values: Seq<bool>) -> Seq<char>
    decreases values.len(),
{
    if values.len() == 0 {
        seq![]
    } else {
        value_cells(values.drop_last()) + seq![' ', digit(values.last()), ' ', '|']
    }
}

/// The rule under the header, for `count` columns: `---|` each.
pub open spec fn rule(count: nat) -> Seq<char>
    decreases count,
{
    if count == 0 {
        seq![]
    } else {
        rule((count - 1) as nat) + seq!['-', '-', '-', '|']
    }
}

/// The two header lines of a truth table over `names`.
pub open spec fn table_header(names: Seq<char>) -> Seq<char> {
    seq!['|'] + name_cells(names) + seq![' ', '=', ' ', '|', '\n'] + seq!['|'] + rule(
        names.len() + 1,
    ) + seq!['\n']
}

/// One line of a truth table: the values of the variables, then the result.
pub open spec fn table_line(values: Seq<bool>, result: bool) -> Seq<char> {
    seq!['|'] + value_cells(values) + seq![' ', digit(result), ' ', '|', '\n']
}

/// One cell ` c |` for each element `c` of `s`, written character by
/// character: position `4 * k + 1` holds `s[k]`, every position `4 * k + 3`
/// holds `|`, and the others are spaces.
pub open spec fn cell_text(s: Seq<char>) -> Seq<char> {
    Seq::new(
        4 * s.len(),
        |i: int|
            if i % 4 == 1 {
                s[i / 4]
            } else if i % 4 == 3 {
                '|'
            } else {
                ' '
            },
    )
}

/// The rule of a table of `count` columns, character by character: `---|`
/// for each column.
pub open spec fn dashes(count: nat) -> Seq<char> {
    Seq::new(
        4 * count,
        |i: int|
            if i % 4 == 3 {
                '|'
            } else {
                '-'
            },
    )
}

/// The name cells hold the names in order, one cell each: the `k`-th cell
/// is ` names[k] |`.
pub proof fn lemma_name_cells(names: Seq<char>)
    ensures
        name_cells(names) == cell_text(names),
    decreases names.len(),
{
    if names.len() > 0 {
        let rest = names.drop_last();
        lemma_name_cells(rest);
        let whole = cell_text(names);
        let n = names.len();
        assert forall|i: int| 0 <= i < 4 * n implies #[trigger] name_cells(names)[i] == whole[i] by {
            if i < 4 * (n - 1) {
                assert(i / 4 < n - 1);
                assert(rest[i / 4] == names[i / 4]);
            } else {
                assert(i / 4 == n - 1);
            }
        }
        assert(name_cells(names) =~= whole);
    }
}

/// The value cells hold the digits of the values in order, one cell each:
/// the `k`-th cell is ` 0 |` or ` 1 |` after `values[k]`.
pub proof fn lemma_value_cells(values: Seq<bool>)
    ensures
        value_cells(values) == cell_text(values.map_values(|b: bool| digit(b))),
    decreases values.len(),
{
    if values.len() > 0 {
        let rest = values.drop_last();
        lemma_value_cells(rest);
        let whole = cell_text(values.map_values(|b: bool| digit(b)));
        let n = values.len();
        assert forall|i: int| 0 <= i < 4 * n implies #[trigger] value_cells(values)[i] == whole[i] by {
            if i < 4 * (n - 1) {
                assert(i / 4 < n - 1);
                assert(rest[i / 4] == values[i / 4]);
            } else {
                assert(i / 4 == n - 1);
            }
        }
        assert(value_cells(values) =~= whole);
    }
}

/// The rule under the header is `---|` once per column.
pub proof fn lemma_rule(count: nat)
    ensures
        rule(count) == dashes(count),
    decreases count,
{
    if count > 0 {
        lemma_rule((count - 1) as nat);
        let whole = dashes(count);
        assert forall|i: int| 0 <= i < 4 * count implies #[trigger] rule(count)[i] == whole[i] by {
        }
        assert(rule(count) =~= whole);
    }
}

impl Formula {
    /// The first `k` lines of the truth table, as text.
    pub open spec fn table_lines(self, k: nat) -> Seq<char>
        decreases k,
    {
        if k == 0 {
            seq![]
        } else {
            self.table_lines((k - 1) as nat) + table_line(
                self.line((k - 1) as nat),
                self.line_result((k - 1) as nat),
            )
        }
    }

    /// The truth table of the formula, as text.
    pub open spec fn table_text(self) -> Seq<char> {
        table_header(self.variable_list()) + self.table_lines(self.line_count())
    }
}

impl Formula {
    /// The width of every line of the truth table, its newline included:
    /// one cell per variable, one for the result, the left border and the
    /// newline.
    pub open spec fn table_width(self) -> int {
        4 * self.variable_list().len() as int + 6
    }

    /// Line `k` of the text of the truth table, its newline included: the
    /// names are line 0, the rule line 1, and line `i` of the table is line
    /// `i + 2` of the text.
    pub open spec fn text_line(self, k: nat) -> Seq<char> {
        self.table_text().subrange(self.table_width() * k, self.table_width() * (k + 1))
    }
}

/// The first `k` lines of the table are `k` lines of the table's width,
/// line `r` holding the digits of line `r` and of its result.
proof fn lemma_table_lines(f: Formula, k: nat)
    ensures
        f.table_lines(k).len() == f.table_width() * k,
        forall|r: nat|
            r < k ==> f.table_lines(k).subrange(
                f.table_width() * r,
                f.table_width() * (r + 1),
            ) == table_line(#[trigger] f.line(r), f.line_result(r)),
    decreases k,
{
    let w = f.table_width();
    if k > 0 {
        let before = f.table_lines((k - 1) as nat);
        lemma_table_lines(f, (k - 1) as nat);
        let last = table_line(f.line((k - 1) as nat), f.line_result((k - 1) as nat));
        lemma_value_cells(f.line((k - 1) as nat));
        assert(last.len() == w);
        assert(w * k == w * (k - 1) + w) by (nonlinear_arith)
            requires
                k >= 1,
        ;
        assert forall|r: nat| r < k implies f.table_lines(k).subrange(w * r, w * (r + 1))
            == table_line(#[trigger] f.line(r), f.line_result(r)) by {
            if r < k - 1 {
                assert(w * (r + 1) <= w * (k - 1)) by (nonlinear_arith)
                    requires
                        r + 1 <= k - 1,
                        w >= 0,
                ;
                assert(w * (r + 1) == w * r + w) by (nonlinear_arith);
                assert(f.table_lines(k).subrange(w * r, w * (r + 1)) =~= before.subrange(
                    w * r,
                    w * (r + 1),
                ));
            } else {
                assert(w * (r + 1) == w * r + w) by (nonlinear_arith);
                assert(f.table_lines(k).subrange(w * r, w * (r + 1)) =~= last);
            }
        }
    }
}

/// The layout of the truth table: `line_count() + 2` lines of equal width.
/// The first names the formula's variables, in the order of
/// [`Formula::variables`], then `=`; the second is the rule; the line of
/// the text after them that stands for line `i` of the table holds the
/// digits of the values of line `i`, in the same order, then the digit of
/// what the formula gives for them.
pub proof fn lemma_table_layout(f: Formula)
    ensures
        f.table_text().len() == f.table_width() * (f.line_count() + 2),
        f.text_line(0) == seq!['|'] + cell_text(f.variable_list()) + seq![' ', '=', ' ', '|', '\n'],
        forall|k: int|
            0 <= k < f.variable_list().len() ==> f.table_text()[4 * k + 2]
                == #[trigger] f.variable_list()[k],
        f.text_line(1) == seq!['|'] + dashes(f.variable_list().len() + 1) + seq!['\n'],
        forall|i: nat|
            #[trigger] f.has_line(i) ==> f.text_line(i + 2) == seq!['|'] + cell_text(
                f.line(i).map_values(|b: bool| digit(b)),
            ) + seq![' ', digit(f.line_result(i)), ' ', '|', '\n'],
{
    let w = f.table_width();
    let names = f.variable_list();
    let n = names.len();
    let header = table_header(names);
    let body = f.table_lines(f.line_count());
    lemma_name_cells(names);
    lemma_rule(n + 1);
    lemma_table_lines(f, f.line_count());
    assert(header.len() == 2 * w);
    assert(w * (f.line_count() + 2) == 2 * w + w * f.line_count()) by (nonlinear_arith);
    assert(f.text_line(0) =~= seq!['|'] + cell_text(names) + seq![' ', '=', ' ', '|', '\n']);
    assert forall|k: int| 0 <= k < n implies f.table_text()[4 * k + 2] == #[trigger] names[k] by {
        assert(f.table_text()[4 * k + 2] == cell_text(names)[4 * k + 1]);
        assert((4 * k + 1) / 4 == k);
    }
    assert(w * 1 == w && w * (1 + 1) == 2 * w) by (nonlinear_arith);
    assert(f.text_line(1) =~= seq!['|'] + dashes(n + 1) + seq!['\n']);
    assert forall|i: nat| #[trigger] f.has_line(i) implies f.text_line(i + 2) == seq!['|'] + cell_text(
        f.line(i).map_values(|b: bool| digit(b)),
    ) + seq![' ', digit(f.line_result(i)), ' ', '|', '\n'] by {
        lemma_value_cells(f.line(i));
        assert(w * (i + 2) == 2 * w + w * i) by (nonlinear_arith);
        assert(w * (i + 2 + 1) == 2 * w + w * (i + 1)) by (nonlinear_arith);
        assert(w * i >= 0) by (nonlinear_arith)
            requires
                w >= 0,
        ;
        assert(w * (i + 1) <= w * f.line_count()) by (nonlinear_arith)
            requires
                i < f.line_count(),
                w >= 0,
        ;
        assert(w * i <= w * (i + 1)) by (nonlinear_arith)
            requires
                w >= 0,
        ;
        let t = f.table_text();
        assert(t == header + body);
        let piece = f.text_line(i + 2);
        assert(piece == t.subrange(w * (i + 2), w * (i + 2 + 1)));
        assert(piece =~= body.subrange(w * i, w * (i + 1)));
        assert(f.line(i) == f.line(i));
    }
}

fn digit_of(b: bool) -> (c: char)
    ensures
        c == digit(b),
{
    if b {
        '1'
    } else {
        '0'
    }
}

/// Appends the cell ` c |`.
fn push_cell(out: &mut String, c: char)
    ensures
        final(out)@ == old(out)@ + seq![' ', c, ' ', '|'],
{
    push_char(out, ' ');
    push_char(out, c);
    push_char(out, ' ');
    push_char(out, '|');
    assert(out@ =~= old(out)@ + seq![' ', c, ' ', '|']);
}

/// The truth table of a formula, in the layout the subject asks for:
///
/// ```text
/// | A | B | C | = |
/// |---|---|---|---|
/// | 0 | 0 | 0 | 0 |
/// ```
pub fn truth_table(formula: &str) -> (table: Result<String, ParseError>)
    ensures
        match table {
            Ok(text) => parsed(formula@, true) is Ok && text@ == parsed(
                formula@,
                true,
            )->Ok_0.table_text(),
            Err(e) => parsed(formula@, true) == Err::<Formula, ParseError>(e),
        },
{
    let tree = match parse(formula) {
        Ok(tree) => tree,
        Err(e) => return Err(e),
    };
    proof {
        lemma_parsed_wf(formula@, true, 'A');
    }
    let variables = tree.variables();
    proof {
        crate::table::lemma_variable_list(tree);
    }
    let mut out = String::new();

    push_char(&mut out, '|');
    for k in 0..variables.len()
        invariant
            out@ == seq!['|'] + name_cells(variables@.take(k as int)),
    {
        push_cell(&mut out, variables[k]);
        assert(variables@.take(k + 1).drop_last() =~= variables@.take(k as int));
        assert(out@ =~= seq!['|'] + name_cells(variables@.take(k + 1)));
    }
    assert(variables@.take(variables.len() as int) =~= variables@);
    push_cell(&mut out, '=');
    push_char(&mut out, '\n');

    push_char(&mut out, '|');
    let ghost before_rule = out@;
    for k in 0..variables.len() + 1
        invariant
            variables.len() < usize::MAX,
            out@ == before_rule + rule(k as nat),
    {
        proof {
            reveal_strlit("---|");
        }
        out.append("---|");
        assert(out@ =~= before_rule + rule((k + 1) as nat));
    }
    push_char(&mut out, '\n');
    assert(out@ =~= table_header(tree.variable_list()));

    let rows = tree.rows();
    let ghost header = out@;
    for i in 0..rows.len()
        invariant
            rows@.len() == tree.line_count(),
            forall|r: int|
                0 <= r < rows@.len() ==> (#[trigger] rows@[r]).0@ == tree.line(r as nat)
                    && rows@[r].1 == tree.line_result(r as nat),
            out@ == header + tree.table_lines(i as nat),
    {
        let (values, result) = &rows[i];
        let ghost before_line = out@;
        push_char(&mut out, '|');
        for j in 0..values.len()
            invariant
                out@ == before_line + seq!['|'] + value_cells(values@.take(j as int)),
        {
            push_cell(&mut out, digit_of(values[j]));
            assert(values@.take(j + 1).drop_last() =~= values@.take(j as int));
            assert(out@ =~= before_line + seq!['|'] + value_cells(values@.take(j + 1)));
        }
        assert(values@.take(values.len() as int) =~= values@);
        push_cell(&mut out, digit_of(*result));
        push_char(&mut out, '\n');
        assert(out@ =~= header + tree.table_lines((i + 1) as nat));
    }
    Ok(out)
}

} // verus!
