use expert_system::models::{BTree, NodeFilter, Operator, calc_formula};
use expert_system::parsing::{clean_line, line_to_chunk};

fn chunks_of(line: &str) -> Vec<String> {
    line_to_chunk(line).expect("line should lex")
}

#[test]
fn from_str_recognises_every_operator() {
    assert_eq!(Operator::from_str("and"), Some(Operator::And));
    assert_eq!(Operator::from_str("&"), Some(Operator::And));
    assert_eq!(Operator::from_str("+"), Some(Operator::And));
    assert_eq!(Operator::from_str("or"), Some(Operator::Or));
    assert_eq!(Operator::from_str("|"), Some(Operator::Or));
    assert_eq!(Operator::from_str("xor"), Some(Operator::Xor));
    assert_eq!(Operator::from_str("^"), Some(Operator::Xor));
    assert_eq!(Operator::from_str("equal"), Some(Operator::Equal));
    assert_eq!(Operator::from_str("="), Some(Operator::Equal));
    assert_eq!(Operator::from_str("material"), Some(Operator::Material));
    assert_eq!(Operator::from_str(">>"), Some(Operator::Material));
    assert_eq!(Operator::from_str("not"), Some(Operator::Not));
    assert_eq!(Operator::from_str("!"), Some(Operator::Not));
    assert_eq!(Operator::from_str("then"), Some(Operator::Then));
    assert_eq!(Operator::from_str("=>"), Some(Operator::Then));
    assert_eq!(Operator::from_str("if-and-only-if"), Some(Operator::IfAndOnlyIf));
    assert_eq!(Operator::from_str("<=>"), Some(Operator::IfAndOnlyIf));
    assert_eq!(Operator::from_str("("), Some(Operator::Parentesis(true)));
    assert_eq!(Operator::from_str(")"), Some(Operator::Parentesis(false)));
    assert_eq!(Operator::from_str("A"), None);
    assert_eq!(Operator::from_str("abc"), None);
}

#[test]
fn symbols_round_trip_through_from_str() {
    for op in [
        Operator::And,
        Operator::Or,
        Operator::Xor,
        Operator::Equal,
        Operator::Material,
        Operator::Not,
        Operator::Then,
        Operator::IfAndOnlyIf,
        Operator::Parentesis(true),
        Operator::Parentesis(false),
    ] {
        let text = op.symbol();
        assert_eq!(Operator::from_str(&text), Some(op));
    }
}

#[test]
fn lexer_splits_operators_and_names() {
    let c = chunks_of("A+B=>C");
    assert_eq!(c, vec!["A", "+", "B", "=>", "C"]);
    let c = chunks_of("  A  &   !B   =>  C ");
    assert_eq!(c, vec!["A", "&", "!", "B", "=>", "C"]);
    let c = chunks_of("(A|B)<=>C");
    assert_eq!(c, vec!["(", "A", "|", "B", ")", "<=>", "C"]);
    let c = chunks_of("A>>B");
    assert_eq!(c, vec!["A", ">>", "B"]);
}

#[test]
fn lexer_keeps_quoted_text_whole() {
    let c = chunks_of("def A \"first alias\" simple");
    assert_eq!(c, vec!["def", "A", "first alias", "simple"]);
}

#[test]
fn lexer_rejects_unclosed_quote() {
    let e = line_to_chunk("def A \"open").unwrap_err();
    assert_eq!(e, "unclosed quote in line: def A \"open");
}

#[test]
fn clean_line_strips_comments_and_space() {
    assert_eq!(clean_line("  A => B  # because"), Some(String::from("A => B")));
    assert_eq!(clean_line("# only a comment"), None);
    assert_eq!(clean_line(""), None);
    assert_eq!(clean_line("A=>B"), Some(String::from("A=>B")));
}

fn rpn(tokens: &[Operator]) -> Result<Vec<Operator>, String> {
    Operator::to_reverse_polish_notation(&tokens.to_vec())
}

#[test]
fn rpn_orders_operands_before_operators() {
    let out = rpn(&[Operator::Var('A'), Operator::And, Operator::Var('B')]).unwrap();
    assert_eq!(out, vec![Operator::Var('A'), Operator::Var('B'), Operator::And]);
}

#[test]
fn rpn_handles_parentheses() {
    let out = rpn(&[
        Operator::Parentesis(true),
        Operator::Var('A'),
        Operator::Or,
        Operator::Var('B'),
        Operator::Parentesis(false),
        Operator::And,
        Operator::Var('C'),
    ])
    .unwrap();
    assert_eq!(
        out,
        vec![
            Operator::Var('A'),
            Operator::Var('B'),
            Operator::Or,
            Operator::Var('C'),
            Operator::And,
        ]
    );
}

#[test]
fn rpn_rejects_stray_close_paren() {
    let e = rpn(&[Operator::Parentesis(false)]).unwrap_err();
    assert_eq!(e, "unexpected closing delimiter: ')'");
}

#[test]
fn rpn_rejects_unclosed_open_paren() {
    let e = rpn(&[Operator::Parentesis(true), Operator::Var('A')]).unwrap_err();
    assert_eq!(e, "unclosed delimiter '('");
}

#[test]
fn rpn_rejects_leading_binary_operator() {
    let e = rpn(&[Operator::And, Operator::Var('A')]).unwrap_err();
    assert_eq!(e, "unexpected operator &");
}

#[test]
fn tree_builds_from_postfix_and_prints_postfix() {
    let mut formula = vec![Operator::Var('A'), Operator::Var('B'), Operator::And];
    let t = BTree::from_vec(&mut formula).unwrap();
    assert_eq!(formula.len(), 0);
    assert_eq!(t.to_string(), "AB&");
    assert_eq!(t.node, Operator::And);
}

#[test]
fn tree_rebuilds_to_the_same_tree() {
    let mut formula = vec![
        Operator::Var('A'),
        Operator::Var('B'),
        Operator::Not,
        Operator::And,
        Operator::Var('C'),
        Operator::Or,
    ];
    let t = BTree::from_vec(&mut formula).unwrap();
    // Serialise the tree again and rebuild: the trees must be equal.
    let text = t.to_string();
    assert_eq!(text, "AB!&C|");
    let mut tokens: Vec<Operator> = text
        .chars()
        .map(|c| match c {
            '&' => Operator::And,
            '|' => Operator::Or,
            '!' => Operator::Not,
            v => Operator::Var(v),
        })
        .collect();
    let t2 = BTree::from_vec(&mut tokens).unwrap();
    assert_eq!(t, t2);
}

#[test]
fn tree_build_fails_on_incomplete_formula() {
    let mut formula = vec![Operator::Var('A'), Operator::And];
    let e = BTree::from_vec(&mut formula).unwrap_err();
    assert_eq!(e, "Error while parsing formula");
    let mut empty: Vec<Operator> = Vec::new();
    assert!(BTree::from_vec(&mut empty).is_err());
}

fn lit(b: bool) -> BTree {
    BTree::new(Operator::B(b))
}

fn bin(op: Operator, a: bool, b: bool) -> BTree {
    let mut t = BTree::new(op);
    t.insert_a(lit(a));
    t.insert_b(lit(b));
    t
}

#[test]
fn evaluation_matches_truth_tables() {
    for a in [false, true] {
        for b in [false, true] {
            assert_eq!(calc_formula(&bin(Operator::And, a, b)), Ok(a && b));
            assert_eq!(calc_formula(&bin(Operator::Or, a, b)), Ok(a || b));
            assert_eq!(calc_formula(&bin(Operator::Xor, a, b)), Ok(a != b));
            assert_eq!(calc_formula(&bin(Operator::Equal, a, b)), Ok(a == b));
            assert_eq!(calc_formula(&bin(Operator::Material, a, b)), Ok(!(a && !b)));
        }
        let mut n = BTree::new(Operator::Not);
        n.insert_b(lit(a));
        assert_eq!(calc_formula(&n), Ok(!a));
    }
    assert_eq!(calc_formula(&bin(Operator::Material, true, false)), Ok(false));
    assert_eq!(calc_formula(&bin(Operator::Equal, true, true)), Ok(true));
    assert_eq!(calc_formula(&bin(Operator::Xor, true, true)), Ok(false));
}

#[test]
fn evaluating_an_unsubstituted_fact_is_an_error() {
    let t = BTree::new(Operator::Var('A'));
    assert_eq!(calc_formula(&t), Err(String::from("Error while calculating formula")));
    assert_eq!(t.eval(), false);
}

#[test]
fn find_nodes_collects_fact_references() {
    let mut formula = vec![
        Operator::Var('A'),
        Operator::Var('B'),
        Operator::Not,
        Operator::And,
    ];
    let t = BTree::from_vec(&mut formula).unwrap();
    let vars = t.find_nodes(NodeFilter::Vars);
    assert_eq!(vars, vec![Operator::Var('A'), Operator::Var('B')]);
    assert_eq!(t.find_nodes(NodeFilter::NonConjunctive), vec![Operator::Not]);
}

#[test]
fn rpn_applies_operator_precedence() {
    // Equal priority pops: conjunction associates to the left.
    let out = rpn(&[
        Operator::Var('A'),
        Operator::And,
        Operator::Var('B'),
        Operator::And,
        Operator::Var('C'),
    ])
    .unwrap();
    assert_eq!(
        out,
        vec![
            Operator::Var('A'),
            Operator::Var('B'),
            Operator::And,
            Operator::Var('C'),
            Operator::And,
        ]
    );
    // Conjunction binds tighter than disjunction, on either side.
    let out = rpn(&[
        Operator::Var('A'),
        Operator::And,
        Operator::Var('B'),
        Operator::Or,
        Operator::Var('C'),
    ])
    .unwrap();
    assert_eq!(
        out,
        vec![
            Operator::Var('A'),
            Operator::Var('B'),
            Operator::And,
            Operator::Var('C'),
            Operator::Or,
        ]
    );
    let out = rpn(&[
        Operator::Var('A'),
        Operator::Or,
        Operator::Var('B'),
        Operator::And,
        Operator::Var('C'),
    ])
    .unwrap();
    assert_eq!(
        out,
        vec![
            Operator::Var('A'),
            Operator::Var('B'),
            Operator::Var('C'),
            Operator::And,
            Operator::Or,
        ]
    );
    // Negation binds tighter than any binary connective.
    let out = rpn(&[Operator::Not, Operator::Var('A'), Operator::And, Operator::Var('B')])
        .unwrap();
    assert_eq!(
        out,
        vec![Operator::Var('A'), Operator::Not, Operator::Var('B'), Operator::And]
    );
}
