use propositional_logic_calculator::{
    Expression, ExpressionParser, ExpressionParserToken, Variable, VariableNames,
};

fn parse(input: &str) -> Option<String> {
    let mut names = VariableNames::new();
    ExpressionParser::parse_string(input, &mut names)
        .ok()
        .map(|node| format!("{:?}", node))
}

#[test]
fn parses_single_variable() {
    assert_eq!(parse("a"), Some("Variable(Variable(0))".to_string()));
}

#[test]
fn parses_and_or_with_precedence() {
    assert_eq!(
        parse("a | b & c"),
        Some("Or(Variable(Variable(0)), And(Variable(Variable(1)), Variable(Variable(2))))".to_string())
    );
    assert_eq!(
        parse("(a | b) & c"),
        Some("And(Or(Variable(Variable(0)), Variable(Variable(1))), Variable(Variable(2)))".to_string())
    );
}

#[test]
fn and_groups_to_the_left() {
    assert_eq!(
        parse("a & b & c"),
        Some("And(And(Variable(Variable(0)), Variable(Variable(1))), Variable(Variable(2)))".to_string())
    );
}

#[test]
fn implication_groups_to_the_right() {
    assert_eq!(
        parse("a > b > c"),
        Some(
            "Or(Not(Variable(Variable(0))), Or(Not(Variable(Variable(1))), Variable(Variable(2))))"
                .to_string()
        )
    );
}

#[test]
fn left_implication_swaps_operands() {
    assert_eq!(
        parse("a < b"),
        Some("Or(Not(Variable(Variable(1))), Variable(Variable(0)))".to_string())
    );
}

#[test]
fn xor_and_biconditional_are_expanded() {
    assert_eq!(
        parse("a ^ b"),
        Some(
            "And(Or(Variable(Variable(0)), Variable(Variable(1))), Not(And(Variable(Variable(0)), Variable(Variable(1)))))"
                .to_string()
        )
    );
    assert_eq!(
        parse("a <> b"),
        Some(
            "Or(Not(Or(Variable(Variable(0)), Variable(Variable(1)))), And(Variable(Variable(0)), Variable(Variable(1))))"
                .to_string()
        )
    );
}

#[test]
fn negation_binds_tighter_than_and() {
    assert_eq!(
        parse("!a & b"),
        Some("And(Not(Variable(Variable(0))), Variable(Variable(1)))".to_string())
    );
}

#[test]
fn names_are_case_insensitive() {
    assert_eq!(
        parse("Rain & rain"),
        Some("And(Variable(Variable(0)), Variable(Variable(0)))".to_string())
    );
}

#[test]
fn spaces_underscores_and_newlines_are_skipped() {
    assert_eq!(parse("a b"), parse("ab"));
    assert_eq!(parse("a_b\n"), parse("ab"));
    let mut names = VariableNames::new();
    ExpressionParser::parse_string("is_wet & it rains", &mut names).unwrap();
    assert_eq!(names.get_name_from_variable(&Variable(0)), Some(&"iswet".to_string()));
    assert_eq!(names.get_name_from_variable(&Variable(1)), Some(&"itrains".to_string()));
}

#[test]
fn refuses_malformed_formulas() {
    assert!(parse("").is_none());
    assert!(parse("a &").is_none());
    assert!(parse("(a").is_none());
    assert!(parse(")").is_none());
    assert!(parse("& a").is_none());
    assert!(parse("(a!b)").is_none());
}

#[test]
fn trailing_tokens_are_left_unread() {
    assert_eq!(parse("a)b"), Some("Variable(Variable(0))".to_string()));
}

#[test]
fn names_met_before_a_failure_stay_entered() {
    let mut names = VariableNames::new();
    assert!(ExpressionParser::parse_string("(a & b", &mut names).is_err());
    assert_eq!(names.get_variable(&"a".to_string()), Some(&Variable(0)));
    assert_eq!(names.get_variable(&"b".to_string()), Some(&Variable(1)));
}

#[test]
fn known_names_keep_their_variable() {
    let mut names = VariableNames::new();
    ExpressionParser::parse_string("x | y", &mut names).unwrap();
    let node = ExpressionParser::parse_string("z & y", &mut names).unwrap();
    assert_eq!(
        format!("{:?}", node),
        "And(Variable(Variable(2)), Variable(Variable(1)))"
    );
}

#[test]
fn tokenize_reads_operators_and_names() {
    let chars: Vec<char> = "a<>b<c>D".chars().collect();
    let tokens = ExpressionParser::tokenize(&chars);
    assert_eq!(
        format!("{:?}", tokens),
        "[Variable(\"a\"), Biconditional, Variable(\"b\"), ImpliesLeft, Variable(\"c\"), ImpliesRight, Variable(\"d\")]"
    );
}

#[test]
fn parse_tokens_reads_a_token_sequence() {
    let tokens = vec![
        ExpressionParserToken::Not,
        ExpressionParserToken::OpenParenthesis,
        ExpressionParserToken::Variable("p".to_string()),
        ExpressionParserToken::Or,
        ExpressionParserToken::Variable("q".to_string()),
        ExpressionParserToken::CloseParenthesis,
    ];
    let mut names = VariableNames::new();
    let node = ExpressionParser::parse_tokens(tokens, &mut names).unwrap();
    assert_eq!(
        format!("{:?}", node),
        "Not(Or(Variable(Variable(0)), Variable(Variable(1))))"
    );
}

#[test]
fn token_equality_compares_kind_and_name() {
    assert!(ExpressionParserToken::Or == ExpressionParserToken::Or);
    assert!(ExpressionParserToken::Or != ExpressionParserToken::And);
    assert!(
        ExpressionParserToken::Variable("a".to_string())
            == ExpressionParserToken::Variable("a".to_string())
    );
    assert!(
        ExpressionParserToken::Variable("a".to_string())
            != ExpressionParserToken::Variable("b".to_string())
    );
}

#[test]
fn token_precedence_and_associativity() {
    assert_eq!(ExpressionParserToken::Biconditional.precedence().unwrap(), 1);
    assert_eq!(ExpressionParserToken::ImpliesLeft.precedence().unwrap(), 2);
    assert_eq!(ExpressionParserToken::Or.precedence().unwrap(), 3);
    assert_eq!(ExpressionParserToken::Xor.precedence().unwrap(), 4);
    assert_eq!(ExpressionParserToken::And.precedence().unwrap(), 5);
    assert!(ExpressionParserToken::Not.precedence().is_err());
    assert!(ExpressionParserToken::OpenParenthesis.associativity().is_err());
    assert!(ExpressionParserToken::ImpliesRight.is_binary_operator());
    assert!(!ExpressionParserToken::Not.is_binary_operator());
}

#[test]
fn expression_parse_string_gives_fresh_names() {
    let (expr, names) = Expression::parse_string("q & p").unwrap();
    assert_eq!(
        format!("{:?}", expr.node_owned()),
        "And(Variable(Variable(0)), Variable(Variable(1)))"
    );
    assert_eq!(names.get_variable(&"p".to_string()), Some(&Variable(1)));
    assert!(Expression::parse_string("|").is_err());
}

#[test]
fn expression_parse_with_shared_names() {
    let mut names = VariableNames::new();
    let first = Expression::parse_string_with_variable_names("a", &mut names).unwrap();
    let second = Expression::parse_string_with_variable_names("b | a", &mut names).unwrap();
    assert_eq!(format!("{:?}", first.node_owned()), "Variable(Variable(0))");
    assert_eq!(
        format!("{:?}", second.node_owned()),
        "Or(Variable(Variable(1)), Variable(Variable(0)))"
    );
}
