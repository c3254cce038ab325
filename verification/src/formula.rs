//! The formula tree: its shape, its value, and the two ways it prints itself.

use vstd::prelude::*;
use vstd::string::*;

use crate::op::Op;

verus! {

/// A propositional formula, as a tree whose arity is fixed by the type:
/// `Not` always has one child, `Binary` always has two.
#[derive(Debug, PartialEq, Eq)]
pub enum Formula {
    Value(bool),
    Var(char),
    Not(Box<Formula>),
    Binary(Op, Box<Formula>, Box<Formula>),
}

/// Whether `c` may name a variable: an upper-case letter.
pub open spec fn is_letter(c: char) -> bool {
    'A' <= c <= 'Z'
}

/// The slot of the letter `c` in an assignment of the 26 variables.
pub open spec fn slot(c: char) -> int {
    c as int - 'A' as int
}

impl Formula {
    /// Every variable of the formula is an upper-case letter.
    pub open spec fn wf(self) -> bool
        decreases self,
    {
        match self {
            Formula::Value(_) => true,
            Formula::Var(c) => is_letter(c),
            Formula::Not(inner) => inner.wf(),
            Formula::Binary(_, left, right) => left.wf() && right.wf(),
        }
    }

    /// The value of the formula when variable `c` is `env[slot(c)]`.
    pub open spec fn value(self, env: Seq<bool>) -> bool
        decreases self,
    {
        match self {
            Formula::Value(b) => b,
            Formula::Var(c) => env[slot(c)],
            Formula::Not(inner) => !inner.value(env),
            Formula::Binary(op, left, right) => op.holds(left.value(env), right.value(env)),
        }
    }

    /// Whether the variable `c` occurs in the formula.
    pub open spec fn occurs(self, c: char) -> bool
        decreases self,
    {
        match self {
            Formula::Value(_) => false,
            Formula::Var(name) => name == c,
            Formula::Not(inner) => inner.occurs(c),
            Formula::Binary(_, left, right) => left.occurs(c) || right.occurs(c),
        }
    }

    /// The formula in reverse polish notation.
    pub open spec fn rpn(self) -> Seq<char>
        decreases self,
    {
        match self {
            Formula::Value(false) => seq!['0'],
            Formula::Value(true) => seq!['1'],
            Formula::Var(c) => seq![c],
            Formula::Not(inner) => inner.rpn().push('!'),
            Formula::Binary(op, left, right) => (left.rpn() + right.rpn()).push(op.symbol()),
        }
    }

    /// The number of nodes of the tree.
    pub open spec fn size(self) -> nat
        decreases self,
    {
        match self {
            Formula::Value(_) | Formula::Var(_) => 1,
            Formula::Not(inner) => 1 + inner.size(),
            Formula::Binary(_, left, right) => 1 + left.size() + right.size(),
        }
    }

    /// A copy of the tree.
    pub(crate) fn duplicate(&self) -> (copy: Formula)
        ensures
            copy == *self,
        decreases self,
    {
        match self {
            Formula::Value(b) => Formula::Value(*b),
            Formula::Var(c) => Formula::Var(*c),
            Formula::Not(inner) => Formula::Not(Box::new(inner.duplicate())),
            Formula::Binary(op, left, right) => Formula::Binary(
                *op,
                Box::new(left.duplicate()),
                Box::new(right.duplicate()),
            ),
        }
    }

    /// Walks the tree and computes its value, reading the variable `c` in
    /// `values[c - 'A']`.
    pub fn eval(&self, values: &[bool; 26]) -> (r: bool)
        requires
            self.wf(),
        ensures
            r == self.value(values@),
        decreases self,
    {
        match self {
            Formula::Value(b) => *b,
            Formula::Var(c) => values[(*c as u32 - 'A' as u32) as usize],
            Formula::Not(inner) => !inner.eval(values),
            Formula::Binary(op, left, right) => op.apply(left.eval(values), right.eval(values)),
        }
    }

    /// Writes the formula in reverse polish notation at the end of `out`.
    fn write_rpn(&self, out: &mut String)
        ensures
            final(out)@ == old(out)@ + self.rpn(),
        decreases self,
    {
        match self {
            Formula::Value(false) => push_char(out, '0'),
            Formula::Value(true) => push_char(out, '1'),
            Formula::Var(c) => push_char(out, *c),
            Formula::Not(inner) => {
                inner.write_rpn(out);
                push_char(out, '!');
            },
            Formula::Binary(op, left, right) => {
                left.write_rpn(out);
                right.write_rpn(out);
                push_char(out, op.as_char());
            },
        }
    }

    /// The formula in reverse polish notation.
    pub fn to_string(&self) -> (s: String)
        ensures
            s@ == self.rpn(),
    {
        let mut out = String::new();
        self.write_rpn(&mut out);
        out
    }
}

impl Clone for Formula {
    fn clone(&self) -> (copy: Self)
        ensures
            copy == *self,
    {
        self.duplicate()
    }
}

/// The line segment that leads to a child: `└── ` for the last child of a
/// node, `├── ` for the others.
pub open spec fn branch(last: bool) -> Seq<char> {
    if last {
        seq!['└', '─', '─', ' ']
    } else {
        seq!['├', '─', '─', ' ']
    }
}

/// What the lines below a child start with, so the branches of the node
/// that follow it keep their vertical line.
pub open spec fn extension(last: bool) -> Seq<char> {
    if last {
        seq![' ', ' ', ' ', ' ']
    } else {
        seq!['│', ' ', ' ', ' ']
    }
}

impl Formula {
    /// The symbol a node prints as in the tree.
    pub open spec fn glyph(self) -> char {
        match self {
            Formula::Value(false) => '0',
            Formula::Value(true) => '1',
            Formula::Var(c) => c,
            Formula::Not(_) => '!',
            Formula::Binary(op, _, _) => op.symbol(),
        }
    }

    /// The lines of one child, and of everything below it, each starting
    /// with `prefix`.
    pub open spec fn child_lines(self, prefix: Seq<char>, last: bool) -> Seq<char>
        decreases self, 1nat,
    {
        prefix + branch(last) + seq![self.glyph(), '\n'] + self.lines_below(
            prefix + extension(last),
        )
    }

    /// The lines of the children of the node, each starting with `prefix`.
    pub open spec fn lines_below(self, prefix: Seq<char>) -> Seq<char>
        decreases self, 0nat,
    {
        match self {
            Formula::Value(_) | Formula::Var(_) => seq![],
            Formula::Not(inner) => inner.child_lines(prefix, true),
            Formula::Binary(_, left, right) => left.child_lines(prefix, false) + right.child_lines(
                prefix,
                true,
            ),
        }
    }

    /// The whole tree drawing: the root, then its descendants.
    pub open spec fn drawing(self) -> Seq<char> {
        seq![self.glyph(), '\n'] + self.lines_below(seq![])
    }

    fn label(&self) -> (c: char)
        ensures
            c == self.glyph(),
    {
        match self {
            Formula::Value(false) => '0',
            Formula::Value(true) => '1',
            Formula::Var(c) => *c,
            Formula::Not(_) => '!',
            Formula::Binary(op, _, _) => op.as_char(),
        }
    }

    /// Renders the tree, as suggested by the subject:
    ///
    /// ```text
    /// &
    /// ├── 1
    /// └── |
    ///     ├── 0
    ///     └── 1
    /// ```
    pub fn tree(&self) -> (s: String)
        ensures
            s@ == self.drawing(),
    {
        let mut out = String::new();
        push_char(&mut out, self.label());
        push_char(&mut out, '\n');
        let prefix = String::new();
        self.render_children(&prefix, &mut out);
        out
    }

    fn render_child(&self, prefix: &String, last: bool, out: &mut String)
        ensures
            final(out)@ == old(out)@ + self.child_lines(prefix@, last),
        decreases self, 1nat,
    {
        out.append(prefix.as_str());
        let mut deeper = prefix.clone();
        if last {
            proof {
                reveal_strlit("└── ");
                reveal_strlit("    ");
            }
            out.append("└── ");
            deeper.append("    ");
        } else {
            proof {
                reveal_strlit("├── ");
                reveal_strlit("│   ");
            }
            out.append("├── ");
            deeper.append("│   ");
        }
        push_char(out, self.label());
        push_char(out, '\n');
        self.render_children(&deeper, out);
        proof {
            assert(deeper@ =~= prefix@ + extension(last));
            assert(out@ =~= old(out)@ + self.child_lines(prefix@, last));
        }
    }

    fn render_children(&self, prefix: &String, out: &mut String)
        ensures
            final(out)@ == old(out)@ + self.lines_below(prefix@),
        decreases self, 0nat,
    {
        match self {
            Formula::Value(_) | Formula::Var(_) => {
                assert(out@ =~= out@ + self.lines_below(prefix@));
            },
            Formula::Not(inner) => inner.render_child(prefix, true, out),
            Formula::Binary(_, left, right) => {
                left.render_child(prefix, false, out);
                right.render_child(prefix, true, out);
                assert(out@ =~= old(out)@ + self.lines_below(prefix@));
            },
        }
    }
}

/// `text` with `prefix` put in front of each of its lines, `at_start`
/// telling whether `text` begins a line.
pub open spec fn indented_from(prefix: Seq<char>, text: Seq<char>, at_start: bool) -> Seq<char>
    decreases text.len(),
{
    if text.len() == 0 {
        seq![]
    } else {
        (if at_start {
            prefix
        } else {
            seq![]
        }) + seq![text[0]] + indented_from(prefix, text.drop_first(), text[0] == '\n')
    }
}

/// `text` with `prefix` put in front of each of its lines.
pub open spec fn indented(prefix: Seq<char>, text: Seq<char>) -> Seq<char> {
    indented_from(prefix, text, true)
}

/// Whether `text` ends a line, given whether the text before it did.
pub open spec fn ends_line(text: Seq<char>, before: bool) -> bool {
    if text.len() == 0 {
        before
    } else {
        text.last() == '\n'
    }
}

/// Indenting a concatenation indents each part.
proof fn lemma_indented_concat(prefix: Seq<char>, a: Seq<char>, b: Seq<char>, at_start: bool)
    ensures
        indented_from(prefix, a + b, at_start) == indented_from(prefix, a, at_start)
            + indented_from(prefix, b, ends_line(a, at_start)),
    decreases a.len(),
{
    if a.len() == 0 {
        assert(a + b =~= b);
        assert(indented_from(prefix, a, at_start) =~= seq![]);
        assert(indented_from(prefix, a + b, at_start) =~= indented_from(prefix, a, at_start)
            + indented_from(prefix, b, ends_line(a, at_start)));
    } else {
        let rest = a.drop_first();
        lemma_indented_concat(prefix, rest, b, a[0] == '\n');
        assert((a + b).drop_first() =~= rest + b);
        assert((a + b)[0] == a[0]);
        if rest.len() > 0 {
            assert(rest.last() == a.last());
        }
        let head = (if at_start {
            prefix
        } else {
            seq![]
        }) + seq![a[0]];
        assert(indented_from(prefix, a + b, at_start) == head + indented_from(prefix, rest + b, a[0] == '\n'));
        assert(indented_from(prefix, a, at_start) == head + indented_from(prefix, rest, a[0] == '\n'));
        assert(indented_from(prefix, a + b, at_start) =~= indented_from(prefix, a, at_start)
            + indented_from(prefix, b, ends_line(a, at_start)));
    }
}

/// A piece of one line, which may end it: indenting puts the prefix in
/// front of it only where it begins a line.
proof fn lemma_indented_line(prefix: Seq<char>, a: Seq<char>, at_start: bool)
    requires
        a.len() > 0,
        forall|i: int| 0 <= i < a.len() - 1 ==> a[i] != '\n',
    ensures
        indented_from(prefix, a, at_start) == (if at_start {
            prefix
        } else {
            seq![]
        }) + a,
    decreases a.len(),
{
    let rest = a.drop_first();
    if rest.len() == 0 {
        assert(indented_from(prefix, rest, a[0] == '\n') =~= seq![]);
        assert(a =~= seq![a[0]]);
    } else {
        assert(a[0] != '\n');
        assert forall|i: int| 0 <= i < rest.len() - 1 implies rest[i] != '\n' by {
            assert(rest[i] == a[i + 1]);
        }
        lemma_indented_line(prefix, rest, false);
        assert(seq![a[0]] + rest =~= a);
    }
    assert(indented_from(prefix, a, at_start) =~= (if at_start {
        prefix
    } else {
        seq![]
    }) + a);
}

/// Indenting by one prefix, then by another, is indenting by both: the
/// outer one first.
proof fn lemma_indented_twice(outer: Seq<char>, inner: Seq<char>, text: Seq<char>, at_start: bool)
    requires
        forall|i: int| 0 <= i < inner.len() ==> inner[i] != '\n',
    ensures
        indented_from(outer, indented_from(inner, text, at_start), at_start) == indented_from(
            outer + inner,
            text,
            at_start,
        ),
    decreases text.len(),
{
    if text.len() > 0 {
        let rest = text.drop_first();
        let flag = text[0] == '\n';
        let head = (if at_start {
            inner
        } else {
            seq![]
        }) + seq![text[0]];
        let tail = indented_from(inner, rest, flag);
        assert(indented_from(inner, text, at_start) == head + tail);
        lemma_indented_concat(outer, head, tail, at_start);
        assert forall|i: int| 0 <= i < head.len() - 1 implies head[i] != '\n' by {
            assert(head[i] == inner[i]);
        }
        lemma_indented_line(outer, head, at_start);
        assert(ends_line(head, at_start) == flag);
        lemma_indented_twice(outer, inner, rest, flag);
        assert(indented_from(outer + inner, text, at_start) == (if at_start {
            outer + inner
        } else {
            seq![]
        }) + seq![text[0]] + indented_from(outer + inner, rest, flag));
        assert(indented_from(outer, indented_from(inner, text, at_start), at_start) =~= indented_from(
            outer + inner,
            text,
            at_start,
        ));
    }
}

/// Whether a line of `text` begins at position `i`.
pub open spec fn begins_line(text: Seq<char>, i: int) -> bool {
    0 <= i < text.len() && (i == 0 || text[i - 1] == '\n')
}

/// Whether every line of `text` starts with `prefix`.
pub open spec fn lines_start_with(text: Seq<char>, prefix: Seq<char>) -> bool {
    forall|i: int|
        #[trigger] begins_line(text, i) ==> i + prefix.len() <= text.len() && text.subrange(
            i,
            i + prefix.len(),
        ) == prefix
}

/// Where the indented text begins a line, the prefix stands, so long as
/// the prefix itself ends no line.
proof fn lemma_indented_lines_start(prefix: Seq<char>, text: Seq<char>, at_start: bool)
    requires
        forall|k: int| 0 <= k < prefix.len() ==> prefix[k] != '\n',
    ensures
        forall|i: int|
            #[trigger] begins_line(indented_from(prefix, text, at_start), i) && (i > 0 || at_start)
                ==> i + prefix.len() <= indented_from(prefix, text, at_start).len()
                && indented_from(prefix, text, at_start).subrange(i, i + prefix.len()) == prefix,
    decreases text.len(),
{
    if text.len() > 0 {
        let rest = text.drop_first();
        let flag = text[0] == '\n';
        lemma_indented_lines_start(prefix, rest, flag);
        let head = (if at_start {
            prefix
        } else {
            seq![]
        }) + seq![text[0]];
        let tail = indented_from(prefix, rest, flag);
        let whole = indented_from(prefix, text, at_start);
        assert(whole == head + tail);
        assert forall|i: int| #[trigger] begins_line(whole, i) && (i > 0 || at_start) implies i
            + prefix.len() <= whole.len() && whole.subrange(i, i + prefix.len()) == prefix by {
            if i < head.len() {
                if i == 0 {
                    assert(whole.subrange(0, prefix.len() as int) =~= prefix);
                } else {
                    assert(whole[i - 1] == prefix[i - 1]);
                }
            } else {
                let j = i - head.len();
                if j == 0 {
                    assert(whole[i - 1] == text[0]);
                } else {
                    assert(whole[i - 1] == tail[j - 1]);
                }
                assert(begins_line(tail, j));
                assert(whole.subrange(i, i + prefix.len()) =~= tail.subrange(j, j + prefix.len()));
            }
        }
    }
}

/// Every line drawn below a node under a prefix starts with that prefix:
/// the lines of a node at depth `d` start with the prefixes of its `d - 1`
/// ancestors below the root, four columns each, before its own branch.
pub proof fn lemma_lines_below_start_with(f: Formula, prefix: Seq<char>)
    requires
        f.wf(),
        forall|k: int| 0 <= k < prefix.len() ==> prefix[k] != '\n',
    ensures
        lines_start_with(f.lines_below(prefix), prefix),
{
    lemma_drawn_under(f, prefix);
    lemma_indented_lines_start(prefix, f.lines_below(seq![]), true);
}

/// Every line of the drawing ends with a newline.
proof fn lemma_lines_end(f: Formula)
    ensures
        forall|prefix: Seq<char>| ends_line(#[trigger] f.lines_below(prefix), true),
        forall|prefix: Seq<char>, last: bool|
            #[trigger] f.child_lines(prefix, last).len() > 0 && f.child_lines(prefix, last).last()
                == '\n',
    decreases f,
{
    match f {
        Formula::Not(inner) => lemma_lines_end(*inner),
        Formula::Binary(_, left, right) => {
            lemma_lines_end(*left);
            lemma_lines_end(*right);
        },
        _ => {},
    }
    assert forall|prefix: Seq<char>| ends_line(#[trigger] f.lines_below(prefix), true) by {
        match f {
            Formula::Not(inner) => {
                assert(inner.child_lines(prefix, true).len() > 0);
            },
            Formula::Binary(_, left, right) => {
                let l = left.child_lines(prefix, false);
                let r = right.child_lines(prefix, true);
                assert(r.len() > 0);
                assert((l + r).last() == r.last());
            },
            _ => {},
        }
    }
    assert forall|prefix: Seq<char>, last: bool|
        #[trigger] f.child_lines(prefix, last).len() > 0 && f.child_lines(prefix, last).last()
            == '\n' by {
        let head = prefix + branch(last) + seq![f.glyph(), '\n'];
        let below = f.lines_below(prefix + extension(last));
        assert(ends_line(below, true));
        if below.len() > 0 {
            assert((head + below).last() == below.last());
        } else {
            assert(head + below =~= head);
        }
    }
}

/// A node of a well-formed formula prints as one character that does not
/// end a line.
proof fn lemma_glyph_in_line(f: Formula)
    requires
        f.wf(),
    ensures
        f.glyph() != '\n',
{
    if let Formula::Binary(op, _, _) = f {
        assert(op.symbol() != '\n');
    }
}

/// The drawing nests: what is drawn below a node under a prefix is what is
/// drawn below it under no prefix, with the prefix put in front of every
/// line. Each level of depth thus adds its four columns in front of the
/// lines of everything below it, and those of its ancestors stay.
pub proof fn lemma_drawn_under(f: Formula, prefix: Seq<char>)
    requires
        f.wf(),
    ensures
        f.lines_below(prefix) == indented(prefix, f.lines_below(seq![])),
    decreases f, 0nat,
{
    match f {
        Formula::Not(inner) => {
            lemma_child_drawn_under(*inner, prefix, true);
        },
        Formula::Binary(_, left, right) => {
            lemma_child_drawn_under(*left, prefix, false);
            lemma_child_drawn_under(*right, prefix, true);
            lemma_lines_end(*left);
            let l = left.child_lines(seq![], false);
            let r = right.child_lines(seq![], true);
            lemma_indented_concat(prefix, l, r, true);
        },
        _ => {
            assert(f.lines_below(prefix) =~= indented(prefix, f.lines_below(seq![])));
        },
    }
}

/// The lines of a child, and of everything below it, drawn under a prefix
/// are those drawn under no prefix, with the prefix in front of each.
pub proof fn lemma_child_drawn_under(f: Formula, prefix: Seq<char>, last: bool)
    requires
        f.wf(),
    ensures
        f.child_lines(prefix, last) == indented(prefix, f.child_lines(seq![], last)),
    decreases f, 1nat,
{
    let ext = extension(last);
    lemma_drawn_under(f, prefix + ext);
    lemma_drawn_under(f, ext);
    assert(seq![] + ext =~= ext);
    let below = f.lines_below(seq![]);
    let head = branch(last) + seq![f.glyph(), '\n'];
    assert(f.child_lines(seq![], last) =~= head + indented(ext, below));
    lemma_indented_concat(prefix, head, indented(ext, below), true);
    lemma_glyph_in_line(f);
    assert forall|i: int| 0 <= i < head.len() - 1 implies head[i] != '\n' by {
        if i < 4 {
            assert(head[i] == branch(last)[i]);
        }
    }
    lemma_indented_line(prefix, head, true);
    assert forall|i: int| 0 <= i < ext.len() implies ext[i] != '\n' by {}
    lemma_indented_twice(prefix, ext, below, true);
    assert(f.child_lines(prefix, last) =~= prefix + head + f.lines_below(prefix + ext));
}

/// The number of lines that `text` ends: its newlines.
pub open spec fn line_total(text: Seq<char>) -> nat
    decreases text.len(),
{
    if text.len() == 0 {
        0
    } else {
        line_total(text.drop_last()) + if text.last() == '\n' {
            1nat
        } else {
            0nat
        }
    }
}

proof fn lemma_line_total_concat(a: Seq<char>, b: Seq<char>)
    ensures
        line_total(a + b) == line_total(a) + line_total(b),
    decreases b.len(),
{
    if b.len() == 0 {
        assert(a + b =~= a);
    } else {
        lemma_line_total_concat(a, b.drop_last());
        assert((a + b).drop_last() =~= a + b.drop_last());
    }
}

/// A piece of a line followed by its newline ends one line.
proof fn lemma_line_total_of_line(a: Seq<char>)
    requires
        forall|i: int| 0 <= i < a.len() ==> a[i] != '\n',
    ensures
        line_total(a) == 0,
        line_total(a.push('\n')) == 1,
    decreases a.len(),
{
    if a.len() > 0 {
        lemma_line_total_of_line(a.drop_last());
    }
    assert(a.push('\n').drop_last() =~= a);
    assert(line_total(a.push('\n')) == line_total(a) + 1);
}

proof fn lemma_lines_below_total(f: Formula, prefix: Seq<char>)
    requires
        f.wf(),
        forall|k: int| 0 <= k < prefix.len() ==> prefix[k] != '\n',
    ensures
        line_total(f.lines_below(prefix)) + 1 == f.size(),
    decreases f, 0nat,
{
    match f {
        Formula::Not(inner) => {
            lemma_child_lines_total(*inner, prefix, true);
        },
        Formula::Binary(_, left, right) => {
            lemma_child_lines_total(*left, prefix, false);
            lemma_child_lines_total(*right, prefix, true);
            lemma_line_total_concat(left.child_lines(prefix, false), right.child_lines(prefix, true));
        },
        _ => {
            assert(line_total(f.lines_below(prefix)) == 0);
        },
    }
}

proof fn lemma_child_lines_total(f: Formula, prefix: Seq<char>, last: bool)
    requires
        f.wf(),
        forall|k: int| 0 <= k < prefix.len() ==> prefix[k] != '\n',
    ensures
        line_total(f.child_lines(prefix, last)) == f.size(),
    decreases f, 1nat,
{
    let deeper = prefix + extension(last);
    assert forall|k: int| 0 <= k < deeper.len() implies deeper[k] != '\n' by {
        if k >= prefix.len() {
            assert(deeper[k] == extension(last)[k - prefix.len()]);
        }
    }
    lemma_lines_below_total(f, deeper);
    lemma_glyph_in_line(f);
    let piece = prefix + branch(last) + seq![f.glyph()];
    assert forall|i: int| 0 <= i < piece.len() implies piece[i] != '\n' by {
        if i >= prefix.len() && i < prefix.len() + 4 {
            assert(piece[i] == branch(last)[i - prefix.len()]);
        }
    }
    lemma_line_total_of_line(piece);
    assert(f.child_lines(prefix, last) =~= piece.push('\n') + f.lines_below(deeper));
    lemma_line_total_concat(piece.push('\n'), f.lines_below(deeper));
}

/// The drawing gives each node of the tree a line of its own: it has as
/// many lines as the tree has nodes.
pub proof fn lemma_line_per_node(f: Formula)
    requires
        f.wf(),
    ensures
        line_total(f.drawing()) == f.size(),
{
    lemma_lines_below_total(f, seq![]);
    lemma_glyph_in_line(f);
    lemma_line_total_of_line(seq![f.glyph()]);
    assert(seq![f.glyph(), '\n'] =~= seq![f.glyph()].push('\n'));
    lemma_line_total_concat(seq![f.glyph(), '\n'], f.lines_below(seq![]));
}

/// Appends the character `c` to `s`, with `String::push`.
#[verifier::external_body]
pub(crate) fn push_char(s: &mut String, c: char)
    ensures
        final(s)@ == old(s)@.push(c),
{
    s.push(c);
}

} // verus!
