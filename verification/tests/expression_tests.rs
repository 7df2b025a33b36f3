use propositional_logic_calculator::{ExpressionNode, Variable, VariableNames, ExpressionParser};

fn tree(input: &str) -> Box<ExpressionNode> {
    let mut names = VariableNames::new();
    ExpressionParser::parse_string(input, &mut names).unwrap()
}

fn show(node: &ExpressionNode) -> String {
    format!("{:?}", node)
}

#[test]
fn pushdown_applies_de_morgan() {
    assert_eq!(
        show(&tree("!(a & b)").pushdown_not_recursive()),
        "Or(Not(Variable(Variable(0))), Not(Variable(Variable(1))))"
    );
    assert_eq!(
        show(&tree("!(a | b)").pushdown_not_recursive()),
        "And(Not(Variable(Variable(0))), Not(Variable(Variable(1))))"
    );
}

#[test]
fn pushdown_removes_double_negation() {
    assert_eq!(show(&tree("!!a").pushdown_not_recursive()), "Variable(Variable(0))");
    assert_eq!(
        show(&tree("!!(a & !(b | c))").pushdown_not_recursive()),
        "And(Variable(Variable(0)), And(Not(Variable(Variable(1))), Not(Variable(Variable(2)))))"
    );
}

#[test]
fn pushdown_leaves_a_negation_uncovered_by_a_triple_negation() {
    // the step is applied once per node, top-down
    assert_eq!(
        show(&tree("!!!(a | b)").pushdown_not_recursive()),
        "Not(Or(Variable(Variable(0)), Variable(Variable(1))))"
    );
    assert!(!tree("!!!(a | b)").pushdown_not_recursive().has_negations_only_on_variables());
    assert!(tree("!!!a").pushdown_not_recursive().has_negations_only_on_variables());
}

#[test]
fn distribute_or_over_and_on_the_right() {
    assert_eq!(
        show(&tree("a | (b & c)").distribute_or_recursive()),
        "And(Or(Variable(Variable(0)), Variable(Variable(1))), Or(Variable(Variable(0)), Variable(Variable(2))))"
    );
}

#[test]
fn distribute_or_over_and_on_the_left() {
    assert_eq!(
        show(&tree("(a & b) | c").distribute_or_recursive()),
        "And(Or(Variable(Variable(0)), Variable(Variable(2))), Or(Variable(Variable(1)), Variable(Variable(2))))"
    );
}

#[test]
fn distribute_leaves_a_clause_unchanged() {
    assert_eq!(
        show(&tree("a | !b").distribute_or_recursive()),
        "Or(Variable(Variable(0)), Not(Variable(Variable(1))))"
    );
}

#[test]
fn constructors_build_the_expected_nodes() {
    let a = ExpressionNode::new_variable(Variable::new(0));
    let b = ExpressionNode::new_variable(Variable::new(1));
    assert_eq!(
        show(&ExpressionNode::new_implies(a.clone(), b.clone())),
        "Or(Not(Variable(Variable(0))), Variable(Variable(1)))"
    );
    assert_eq!(
        show(&ExpressionNode::new_xor(a.clone(), b.clone())),
        "And(Or(Variable(Variable(0)), Variable(Variable(1))), Not(And(Variable(Variable(0)), Variable(Variable(1)))))"
    );
    assert_eq!(
        show(&ExpressionNode::new_biconditional(a.clone(), b.clone())),
        "Or(Not(Or(Variable(Variable(0)), Variable(Variable(1)))), And(Variable(Variable(0)), Variable(Variable(1))))"
    );
    assert_eq!(show(&ExpressionNode::new_not(a.clone())), "Not(Variable(Variable(0)))");
    assert_eq!(
        show(&ExpressionNode::new_and(a.clone(), b.clone())),
        "And(Variable(Variable(0)), Variable(Variable(1)))"
    );
    assert_eq!(
        show(&ExpressionNode::new_or(a, b)),
        "Or(Variable(Variable(0)), Variable(Variable(1)))"
    );
}

#[test]
fn variable_new_keeps_its_number() {
    assert_eq!(Variable::new(7), Variable(7));
}

#[test]
fn variable_numbers_wrap_after_256_names() {
    let mut names = VariableNames::new();
    for i in 0..257 {
        let name = format!("v{}", i);
        ExpressionParser::parse_string(&name, &mut names).unwrap();
    }
    assert_eq!(names.get_variable(&"v255".to_string()), Some(&Variable(255)));
    assert_eq!(names.get_variable(&"v256".to_string()), Some(&Variable(0)));
}
