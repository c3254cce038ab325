use boole::{
    clause_strings, eval_formula, gray_code, parse, parse_constants, sat, truth_table, Formula,
    Op, ParseError,
};

#[test]
fn gray_codes_of_neighbours_differ_in_one_bit_at_the_top() {
    let n = u32::MAX - 1;
    let diff = gray_code(n) ^ gray_code(n + 1);
    assert_eq!(diff.count_ones(), 1);
    assert_eq!(gray_code(0x8000_0000), 0xC000_0000);
}

#[test]
fn operators_read_back_their_symbol() {
    for op in [Op::And, Op::Or, Op::Xor, Op::Imply, Op::Equiv] {
        assert_eq!(Op::from_char(op.as_char()), Some(op));
    }
    assert_eq!(Op::from_char('!'), None);
    assert_eq!(Op::from_char('A'), None);
    assert_eq!(Op::And.as_char(), '&');
    assert_eq!(Op::Equiv.as_char(), '=');
}

#[test]
fn operators_follow_their_truth_tables() {
    let table = |op: Op| {
        [(false, false), (false, true), (true, false), (true, true)]
            .iter()
            .map(|&(l, r)| op.apply(l, r))
            .collect::<Vec<_>>()
    };
    assert_eq!(table(Op::And), vec![false, false, false, true]);
    assert_eq!(table(Op::Or), vec![false, true, true, true]);
    assert_eq!(table(Op::Xor), vec![false, true, true, false]);
    assert_eq!(table(Op::Imply), vec![true, true, false, true]);
    assert_eq!(table(Op::Equiv), vec![true, false, false, true]);
}

#[test]
fn each_parse_error_explains_itself() {
    assert_eq!(ParseError::Empty.to_string(), "the formula is empty");
    assert_eq!(ParseError::UnknownSymbol('a').to_string(), "unknown symbol 'a'");
    assert_eq!(ParseError::MissingOperand('&').to_string(), "'&' is missing an operand");
    assert_eq!(
        ParseError::MissingOperator(2).to_string(),
        "2 operands are left unconnected, an operator is missing"
    );
    assert_eq!(
        ParseError::MissingOperator(120).to_string(),
        "120 operands are left unconnected, an operator is missing"
    );
}

#[test]
fn each_parse_error_comes_from_its_input() {
    assert_eq!(parse(""), Err(ParseError::Empty));
    assert_eq!(parse("Ab|"), Err(ParseError::UnknownSymbol('b')));
    assert_eq!(parse("A!!|"), Err(ParseError::MissingOperand('|')));
    assert_eq!(parse("!A"), Err(ParseError::MissingOperand('!')));
    assert_eq!(parse("ABC&"), Err(ParseError::MissingOperator(2)));
    assert_eq!(parse("ABC"), Err(ParseError::MissingOperator(3)));
    assert_eq!(parse("A€"), Err(ParseError::UnknownSymbol('€')));
    assert_eq!(parse_constants("1A|"), Err(ParseError::UnknownSymbol('A')));
}

#[test]
fn variables_parse_into_their_leaves() {
    let expected = Formula::Binary(
        Op::Imply,
        Box::new(Formula::Not(Box::new(Formula::Var('A')))),
        Box::new(Formula::Var('Z')),
    );
    assert_eq!(parse("A!Z>"), Ok(expected));
}

#[test]
fn parsing_reads_back_what_was_written() {
    for formula in ["A", "AB&C|!", "AB^C=DE>&", "10Z!|^", "A!!!"] {
        let tree = parse(formula).unwrap();
        assert_eq!(tree.to_string(), formula);
        assert_eq!(parse(&tree.to_string()), Ok(tree.clone()));
    }
}

#[test]
fn the_tree_shows_negations_and_variables() {
    let tree = parse("A!B|").unwrap();
    assert_eq!(tree.tree(), "|\n├── !\n│   └── A\n└── B\n");
    assert_eq!(parse("Q").unwrap().tree(), "Q\n");
}

#[test]
fn evaluation_ignores_letters_without_variables() {
    assert!(eval_formula("10>!"));
    assert!(!eval_formula("A"));
    assert!(!eval_formula(""));
}

#[test]
fn normal_form_checks_reject_what_they_should() {
    assert!(!parse("AB>").unwrap().is_nnf());
    assert!(!parse("AB&!").unwrap().is_nnf());
    assert!(!parse("A!!").unwrap().is_nnf());
    assert!(parse("A!B|").unwrap().is_nnf());
    assert!(!parse("AB&C|").unwrap().is_cnf());
    assert!(!parse("AB&!").unwrap().is_cnf());
    assert!(parse("AB|C!&").unwrap().is_cnf());
    assert!(parse("1").unwrap().is_cnf());
}

#[test]
fn pushing_negations_keeps_operators_it_need_not_touch() {
    let tree = parse("AB^").unwrap();
    assert_eq!(tree.with_negations_pushed().to_string(), "AB^");
    assert_eq!(parse("AB^!!").unwrap().with_negations_pushed().to_string(), "AB^");
    assert_eq!(parse("A!B>!").unwrap().with_basic_operators().to_string(), "A!!B|!");
}

#[test]
fn normal_forms_are_fixed_points() {
    for formula in ["AB>C=", "A!B^", "AB&C|!", "ABC&|D^"] {
        let tree = parse(formula).unwrap();
        let nnf = tree.nnf();
        assert_eq!(nnf.nnf(), nnf);
        let cnf = tree.cnf();
        assert!(cnf.is_cnf());
        assert_eq!(cnf.nnf(), cnf);
    }
}

#[test]
fn normal_forms_keep_every_row_of_the_table() {
    for formula in ["AB>C=", "A!B^", "ZA&Q|!", "1A0^>"] {
        let tree = parse(formula).unwrap();
        assert_eq!(tree.nnf().rows(), tree.rows());
        assert_eq!(tree.cnf().rows(), tree.rows());
        assert_eq!(tree.nnf().variables(), tree.variables());
    }
}

#[test]
fn rows_list_the_table_in_order() {
    let tree = parse("AB>").unwrap();
    assert_eq!(
        tree.rows(),
        vec![
            (vec![false, false], true),
            (vec![false, true], true),
            (vec![true, false], false),
            (vec![true, true], true),
        ]
    );
    assert_eq!(parse("0").unwrap().rows(), vec![(vec![], false)]);
}

#[test]
fn clause_strings_follow_the_clause_list() {
    let tree = parse("AB&C!|").unwrap();
    assert_eq!(
        clause_strings(&tree),
        vec![vec!["A".to_string(), "C!".to_string()], vec!["B".to_string(), "C!".to_string()]]
    );
}

#[test]
fn satisfiability_needs_a_true_row() {
    assert!(sat("AB>!"));
    assert!(!sat("AB>!B&"));
    assert!(parse("ZY=!").unwrap().is_satisfiable());
}

#[test]
fn truth_tables_of_parse_errors() {
    assert_eq!(truth_table("A!!&"), Err(ParseError::MissingOperand('&')));
    assert_eq!(truth_table("1").unwrap(), "| = |\n|---|\n| 1 |\n");
}
