use propositional_logic_calculator::{Expression, ExpressionSet, Variable, VariableNames, Workspace};

#[test]
fn workspace_collects_formulas() {
    let mut ws = Workspace::new();
    assert!(ws.parse_expression("rain > wet").is_ok());
    assert!(ws.parse_expression("rain").is_ok());
    assert!(ws.parse_expression("&").is_err());
    assert!(ws.knowledge_base_is_defined());
    assert_eq!(ws.display_knowledge_base(), "[wet]\n[rain]\n");
}

#[test]
fn workspace_refused_formula_adds_nothing() {
    let mut ws = Workspace::new();
    assert!(ws.parse_expression("a | (b").is_err());
    assert!(ws.parse_expression("c").is_ok());
    assert_eq!(ws.display_knowledge_base(), "[c]\n");
}

#[test]
fn workspace_reports_formulas_that_cannot_become_clauses() {
    let mut ws = Workspace::new();
    ws.parse_expression("a").unwrap();
    assert!(ws.knowledge_base_is_defined());
    ws.parse_expression("!!!(a | b)").unwrap();
    assert!(!ws.knowledge_base_is_defined());
}

#[test]
fn workspace_knowledge_base_value() {
    let mut ws = Workspace::new();
    ws.parse_expression("a | b").unwrap();
    ws.parse_expression("!a").unwrap();
    let kb = ws.knowledge_base_from_all_expressions();
    let names_kb = format!("{:?}", kb);
    assert!(names_kb.contains("KnowledgeBase"));
    assert_eq!(ws.display_knowledge_base(), "[b]\n[!a]\n");
}

#[test]
fn variable_names_store_and_look_up() {
    let mut names = VariableNames::new();
    assert_eq!(names.get_or_insert("x".to_string()), Variable(0));
    assert_eq!(names.get_or_insert("y".to_string()), Variable(1));
    assert_eq!(names.get_or_insert("x".to_string()), Variable(0));
    assert_eq!(names.get_name_from_variable(&Variable(1)), Some(&"y".to_string()));
    assert_eq!(names.get_name_from_variable(&Variable(5)), None);
    assert_eq!(names.get_variable(&"z".to_string()), None);

    let mut other = VariableNames::new();
    other.get_or_insert("y".to_string());
    other.get_or_insert("z".to_string());
    names.push_names(other);
    assert_eq!(names.get_variable(&"y".to_string()), Some(&Variable(0)));
    assert_eq!(names.get_variable(&"z".to_string()), Some(&Variable(1)));
    let entries = names.names_map_owned();
    assert_eq!(
        entries,
        vec![
            ("x".to_string(), Variable(0)),
            ("y".to_string(), Variable(0)),
            ("z".to_string(), Variable(1)),
        ]
    );
}

#[test]
fn expression_set_keeps_formulas() {
    let mut set = ExpressionSet::new();
    let (expr, _) = Expression::parse_string("a").unwrap();
    set.push(expr.clone());
    set.push(expr);
}
