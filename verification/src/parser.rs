//! Reverse polish notation to formula tree.

use vstd::prelude::*;
use vstd::string::*;

use crate::formula::{is_letter, push_char, Formula};
use crate::op::Op;

verus! {

/// Why a text is not a formula.
#[derive(Debug, Clone, Copy, PartialEq, Eq, Structural)]
pub enum ParseError {
    /// There is no symbol at all.
    Empty,
    /// A symbol that stands for nothing.
    UnknownSymbol(char),
    /// An operator found fewer operands before it than it takes.
    MissingOperand(char),
    /// That many operands are left at the end, with no operator to join them.
    MissingOperator(usize),
}

/// The decimal digit `d`.
pub open spec fn decimal_digit(d: nat) -> char {
    ('0' as int + d) as char
}

/// `n` written in decimal.
pub open spec fn decimal(n: nat) -> Seq<char>
    decreases n,
{
    if n < 10 {
        seq![decimal_digit(n)]
    } else {
        decimal(n / 10).push(decimal_digit(n % 10))
    }
}

/// The number that a text of decimal digits writes, its first digit being
/// the most significant one.
pub open spec fn decimal_value(s: Seq<char>) -> int
    decreases s.len(),
{
    if s.len() == 0 {
        0
    } else {
        10 * decimal_value(s.drop_last()) + (s.last() as int - '0' as int)
    }
}

/// `n` written in decimal is made of decimal digits, starts with no
/// needless zero, and reads back as `n`.
pub proof fn lemma_decimal_reads_back(n: nat)
    ensures
        decimal(n).len() > 0,
        forall|i: int| 0 <= i < decimal(n).len() ==> '0' <= #[trigger] decimal(n)[i] <= '9',
        n > 0 ==> decimal(n)[0] != '0',
        decimal_value(decimal(n)) == n,
    decreases n,
{
    if n >= 10 {
        lemma_decimal_reads_back(n / 10);
        let s = decimal(n);
        assert(s.drop_last() =~= decimal(n / 10));
        assert forall|i: int| 0 <= i < s.len() implies '0' <= #[trigger] s[i] <= '9' by {
            if i < s.len() - 1 {
                assert(s[i] == decimal(n / 10)[i]);
            }
        }
        assert(s[0] == decimal(n / 10)[0]);
    } else {
        assert(decimal_value(decimal(n).drop_last()) == 0);
    }
}

/// Appends `n` written in decimal.
fn write_decimal(n: usize, out: &mut String)
    ensures
        final(out)@ == old(out)@ + decimal(n as nat),
    decreases n,
{
    if n >= 10 {
        write_decimal(n / 10, out);
    }
    let d = (n % 10) as u8;
    push_char(out, (48u8 + d) as char);
    assert(out@ =~= old(out)@ + decimal(n as nat));
}

impl ParseError {
    /// What the error says to a reader.
    pub open spec fn message(self) -> Seq<char> {
        match self {
            ParseError::Empty => "the formula is empty"@,
            ParseError::UnknownSymbol(c) => "unknown symbol '"@ + seq![c] + "'"@,
            ParseError::MissingOperand(c) => "'"@ + seq![c] + "' is missing an operand"@,
            ParseError::MissingOperator(n) => decimal(n as nat)
                + " operands are left unconnected, an operator is missing"@,
        }
    }

    /// What the error says to a reader.
    pub fn to_string(&self) -> (text: String)
        ensures
            text@ == self.message(),
    {
        let mut out = String::new();
        match self {
            ParseError::Empty => out.append("the formula is empty"),
            ParseError::UnknownSymbol(c) => {
                out.append("unknown symbol '");
                push_char(&mut out, *c);
                out.append("'");
            },
            ParseError::MissingOperand(c) => {
                out.append("'");
                push_char(&mut out, *c);
                out.append("' is missing an operand");
            },
            ParseError::MissingOperator(n) => {
                write_decimal(*n, &mut out);
                out.append(" operands are left unconnected, an operator is missing");
            },
        }
        assert(out@ =~= self.message());
        out
    }
}

/// What reading the symbol `c` does to the stack of formulas read so far.
///
/// Letters are variables only where `letters` holds.
pub open spec fn read_symbol(stack: Seq<Formula>, c: char, letters: bool) -> Result<
    Seq<Formula>,
    ParseError,
> {
    let n = stack.len();
    if c == '0' {
        Ok(stack.push(Formula::Value(false)))
    } else if c == '1' {
        Ok(stack.push(Formula::Value(true)))
    } else if letters && is_letter(c) {
        Ok(stack.push(Formula::Var(c)))
    } else if c == '!' {
        if n == 0 {
            Err(ParseError::MissingOperand(c))
        } else {
            Ok(stack.drop_last().push(Formula::Not(Box::new(stack.last()))))
        }
    } else {
        match Op::named(c) {
            None => Err(ParseError::UnknownSymbol(c)),
            Some(op) => if n < 2 {
                Err(ParseError::MissingOperand(c))
            } else {
                Ok(
                    stack.subrange(0, n - 2).push(
                        Formula::Binary(op, Box::new(stack[n - 2]), Box::new(stack[n - 1])),
                    ),
                )
            },
        }
    }
}

/// Reads the symbols of `s` from left to right, starting from `stack`.
pub open spec fn read_all(stack: Seq<Formula>, s: Seq<char>, letters: bool) -> Result<
    Seq<Formula>,
    ParseError,
>
    decreases s.len(),
{
    if s.len() == 0 {
        Ok(stack)
    } else {
        match read_symbol(stack, s[0], letters) {
            Ok(next) => read_all(next, s.drop_first(), letters),
            Err(e) => Err(e),
        }
    }
}

/// What is left once every symbol is read: exactly one formula, or an error.
pub open spec fn conclude(read: Result<Seq<Formula>, ParseError>) -> Result<Formula, ParseError> {
    match read {
        Err(e) => Err(e),
        Ok(stack) => if stack.len() == 0 {
            Err(ParseError::Empty)
        } else if stack.len() == 1 {
            Ok(stack[0])
        } else {
            Err(ParseError::MissingOperator(stack.len() as usize))
        },
    }
}

/// The formula written `s` in reverse polish notation, or why there is none.
pub open spec fn parsed(s: Seq<char>, letters: bool) -> Result<Formula, ParseError> {
    conclude(read_all(seq![], s, letters))
}

/// Reads `formula` symbol by symbol on a stack, in O(n).
fn parse_with(formula: &str, letters: bool) -> (r: Result<Formula, ParseError>)
    ensures
        r == parsed(formula@, letters),
{
    let mut stack: Vec<Formula> = Vec::new();
    let ghost s = formula@;
    assert(s.skip(0) =~= s);
    for c in it: formula.chars()
        invariant
            s == formula@,
            it.seq() == s,
            read_all(seq![], s, letters) == read_all(stack@, s.skip(it.index()), letters),
    {
        let ghost i = it.index();
        let ghost before = stack@;
        assert(s.skip(i as int)[0] == c);
        assert(s.skip(i as int).drop_first() =~= s.skip(i + 1));
        if c == '0' {
            stack.push(Formula::Value(false));
        } else if c == '1' {
            stack.push(Formula::Value(true));
        } else if letters && 'A' <= c && c <= 'Z' {
            stack.push(Formula::Var(c));
        } else if c == '!' {
            match stack.pop() {
                Some(operand) => {
                    stack.push(Formula::Not(Box::new(operand)));
                    assert(stack@ =~= before.drop_last().push(
                        Formula::Not(Box::new(before.last())),
                    ));
                },
                None => return Err(ParseError::MissingOperand(c)),
            }
        } else {
            let op = match Op::from_char(c) {
                Some(op) => op,
                None => return Err(ParseError::UnknownSymbol(c)),
            };
            // The right operand was pushed last, so it comes out first.
            let right = match stack.pop() {
                Some(right) => right,
                None => return Err(ParseError::MissingOperand(c)),
            };
            let left = match stack.pop() {
                Some(left) => left,
                None => return Err(ParseError::MissingOperand(c)),
            };
            stack.push(Formula::Binary(op, Box::new(left), Box::new(right)));
            let ghost n = before.len();
            assert(stack@ =~= before.subrange(0, n - 2).push(
                Formula::Binary(op, Box::new(before[n - 2]), Box::new(before[n - 1])),
            ));
        }
        assert(read_symbol(before, c, letters) == Ok::<Seq<Formula>, ParseError>(stack@));
    }
    assert(s.skip(s.len() as int).len() == 0);
    match stack.len() {
        0 => Err(ParseError::Empty),
        1 => Ok(stack.pop().unwrap()),
        n => Err(ParseError::MissingOperator(n)),
    }
}

/// Builds the tree from a formula in reverse polish notation, in O(n).
///
/// Symbols: `0` and `1` for the constants, the upper-case letters `A` to
/// `Z` for the variables, `!` for the negation, and `& | ^ > =` for the
/// binary operators. Anything else is invalid.
pub fn parse(formula: &str) -> (r: Result<Formula, ParseError>)
    ensures
        r == parsed(formula@, true),
{
    parse_with(formula, true)
}

/// Builds the tree of a formula without variables, in reverse polish
/// notation: the same symbols as [`parse`], letters aside, which are
/// unknown here.
pub fn parse_constants(formula: &str) -> (r: Result<Formula, ParseError>)
    ensures
        r == parsed(formula@, false),
{
    parse_with(formula, false)
}

/// Whether `f` can be written with the symbols [`parsed`] reads: every
/// variable an upper-case letter, and none at all unless `letters` holds.
pub open spec fn writable(f: Formula, letters: bool) -> bool
    decreases f,
{
    match f {
        Formula::Value(_) => true,
        Formula::Var(c) => letters && is_letter(c),
        Formula::Not(inner) => writable(*inner, letters),
        Formula::Binary(_, left, right) => writable(*left, letters) && writable(*right, letters),
    }
}

/// The formulas of a stack written one after the other.
pub open spec fn written(stack: Seq<Formula>) -> Seq<char>
    decreases stack.len(),
{
    if stack.len() == 0 {
        seq![]
    } else {
        written(stack.drop_last()) + stack.last().rpn()
    }
}

/// Reading the notation of `f` pushes `f` on the stack, whatever comes
/// before or after it.
proof fn lemma_read_notation(stack: Seq<Formula>, f: Formula, rest: Seq<char>, letters: bool)
    requires
        writable(f, letters),
    ensures
        read_all(stack, f.rpn() + rest, letters) == read_all(stack.push(f), rest, letters),
    decreases f,
{
    match f {
        Formula::Value(_) | Formula::Var(_) => {
            assert((f.rpn() + rest).drop_first() =~= rest);
        },
        Formula::Not(inner) => {
            assert(f.rpn() + rest =~= inner.rpn() + (seq!['!'] + rest));
            lemma_read_notation(stack, *inner, seq!['!'] + rest, letters);
            assert((seq!['!'] + rest).drop_first() =~= rest);
            assert(stack.push(*inner).drop_last() =~= stack);
        },
        Formula::Binary(op, left, right) => {
            let symbol = op.symbol();
            assert(f.rpn() + rest =~= left.rpn() + (right.rpn() + (seq![symbol] + rest)));
            lemma_read_notation(stack, *left, right.rpn() + (seq![symbol] + rest), letters);
            lemma_read_notation(stack.push(*left), *right, seq![symbol] + rest, letters);
            assert((seq![symbol] + rest).drop_first() =~= rest);
            let both = stack.push(*left).push(*right);
            assert(both.subrange(0, both.len() - 2) =~= stack);
        },
    }
}

/// Reading one symbol writes it after what the stack already held.
proof fn lemma_read_symbol_writes(stack: Seq<Formula>, c: char, letters: bool)
    requires
        read_symbol(stack, c, letters) is Ok,
        forall|i: int| 0 <= i < stack.len() ==> writable(#[trigger] stack[i], letters),
    ensures
        written(read_symbol(stack, c, letters)->Ok_0) == written(stack) + seq![c],
        forall|i: int|
            0 <= i < read_symbol(stack, c, letters)->Ok_0.len() ==> writable(
                #[trigger] read_symbol(stack, c, letters)->Ok_0[i],
                letters,
            ),
{
    let next = read_symbol(stack, c, letters)->Ok_0;
    let n = stack.len();
    if c == '0' || c == '1' || (letters && is_letter(c)) {
        assert(next.drop_last() =~= stack);
        assert(next.last().rpn() =~= seq![c]);
        assert(written(next) =~= written(stack) + seq![c]);
        assert(forall|i: int| 0 <= i < n ==> next[i] == stack[i]);
    } else if c == '!' {
        assert(next.drop_last() =~= stack.drop_last());
        assert(written(next) == written(stack.drop_last()) + stack.last().rpn().push('!'));
        assert(written(next) =~= written(stack) + seq![c]);
        assert(writable(stack[n - 1], letters));
        assert(forall|i: int| 0 <= i < n - 1 ==> next[i] == stack[i]);
    } else {
        lemma_read_operator_writes(stack, c, letters);
    }
}

/// Reading a binary operator joins the last two formulas of the stack.
proof fn lemma_read_operator_writes(stack: Seq<Formula>, c: char, letters: bool)
    requires
        read_symbol(stack, c, letters) is Ok,
        forall|i: int| 0 <= i < stack.len() ==> writable(#[trigger] stack[i], letters),
        c != '0' && c != '1' && c != '!' && !(letters && is_letter(c)),
    ensures
        written(read_symbol(stack, c, letters)->Ok_0) == written(stack) + seq![c],
        forall|i: int|
            0 <= i < read_symbol(stack, c, letters)->Ok_0.len() ==> writable(
                #[trigger] read_symbol(stack, c, letters)->Ok_0[i],
                letters,
            ),
{
    let next = read_symbol(stack, c, letters)->Ok_0;
    let n = stack.len();
    let op = Op::named(c)->Some_0;
    let low = stack.subrange(0, n - 2);
    assert(next.drop_last() =~= low);
    assert(stack.drop_last() =~= stack.subrange(0, n - 1));
    assert(stack.subrange(0, n - 1).drop_last() =~= low);
    assert(writable(stack[n - 2], letters) && writable(stack[n - 1], letters));
    let w = written(low);
    assert(written(stack.subrange(0, n - 1)) == w + stack[n - 2].rpn());
    assert(written(stack) == written(stack.subrange(0, n - 1)) + stack[n - 1].rpn());
    assert(written(next) == w + (stack[n - 2].rpn() + stack[n - 1].rpn()).push(op.symbol()));
    assert(written(next) =~= written(stack) + seq![c]);
    assert(forall|i: int| 0 <= i < n - 2 ==> next[i] == stack[i]);
}

/// Reading symbols writes them after what the stack already held.
proof fn lemma_read_writes(stack: Seq<Formula>, s: Seq<char>, letters: bool)
    requires
        read_all(stack, s, letters) is Ok,
        forall|i: int| 0 <= i < stack.len() ==> writable(#[trigger] stack[i], letters),
    ensures
        written(read_all(stack, s, letters)->Ok_0) == written(stack) + s,
        forall|i: int|
            0 <= i < read_all(stack, s, letters)->Ok_0.len() ==> writable(
                #[trigger] read_all(stack, s, letters)->Ok_0[i],
                letters,
            ),
    decreases s.len(),
{
    if s.len() == 0 {
        assert(written(stack) + s =~= written(stack));
    } else {
        let c = s[0];
        let next = read_symbol(stack, c, letters)->Ok_0;
        lemma_read_symbol_writes(stack, c, letters);
        lemma_read_writes(next, s.drop_first(), letters);
        assert(written(stack) + seq![c] + s.drop_first() =~= written(stack) + s);
    }
}

/// Parsing gives back exactly the formulas that the symbols can write, and
/// reads each of them from its own notation only: `s` parses into `f` if
/// and only if `f` is written `s`.
pub proof fn lemma_parse_inverts_notation(f: Formula, s: Seq<char>, letters: bool)
    ensures
        parsed(s, letters) == Ok::<Formula, ParseError>(f) <==> (writable(f, letters) && f.rpn()
            == s),
{
    if writable(f, letters) && f.rpn() == s {
        lemma_read_notation(seq![], f, seq![], letters);
        assert(f.rpn() + seq![] =~= f.rpn());
        assert(read_all(seq![f], seq![], letters) == Ok::<Seq<Formula>, ParseError>(seq![f]));
        assert(seq![].push(f) =~= seq![f]);
    }
    if parsed(s, letters) == Ok::<Formula, ParseError>(f) {
        lemma_read_writes(seq![], s, letters);
        let stack = read_all(seq![], s, letters)->Ok_0;
        assert(stack.len() == 1 && stack[0] == f);
        assert(stack.drop_last() =~= seq![]);
        assert(written(seq![]) + s =~= s);
        assert(written(stack) =~= f.rpn());
    }
}

/// A formula that the symbols can write is well formed; without letters,
/// no variable occurs in it.
pub proof fn lemma_writable_wf(f: Formula, letters: bool, c: char)
    requires
        writable(f, letters),
    ensures
        f.wf(),
        !letters ==> !f.occurs(c),
    decreases f,
{
    match f {
        Formula::Not(inner) => lemma_writable_wf(*inner, letters, c),
        Formula::Binary(_, left, right) => {
            lemma_writable_wf(*left, letters, c);
            lemma_writable_wf(*right, letters, c);
        },
        _ => {},
    }
}

/// What parsing gives back is well formed; without letters, it holds no
/// variable.
pub proof fn lemma_parsed_wf(s: Seq<char>, letters: bool, c: char)
    requires
        parsed(s, letters) is Ok,
    ensures
        parsed(s, letters)->Ok_0.wf(),
        !letters ==> !parsed(s, letters)->Ok_0.occurs(c),
{
    let f = parsed(s, letters)->Ok_0;
    lemma_parse_inverts_notation(f, s, letters);
    lemma_writable_wf(f, letters, c);
}

} // verus!
