use propositional_logic_calculator::{
    Expression, KnowledgeBase, KnowledgeBaseFact, KnowledgeBaseLiteral, Variable, VariableNames, Workspace,
};

fn lit(not: bool, v: u8) -> KnowledgeBaseLiteral {
    KnowledgeBaseLiteral::new(not, Variable::new(v))
}

fn kb_text(formulas: &[&str]) -> String {
    let mut ws = Workspace::new();
    for f in formulas {
        ws.parse_expression(f).unwrap();
    }
    assert!(ws.knowledge_base_is_defined());
    ws.display_knowledge_base()
}

#[test]
fn unit_propagation_removes_refuted_literals() {
    // [x], [!x, y] becomes [x], [y]
    assert_eq!(kb_text(&["x", "!x | y"]), "[x]\n[y]\n");
}

#[test]
fn supersets_are_removed() {
    // [y], [!x, y] becomes [y]
    assert_eq!(kb_text(&["y", "!x | y"]), "[y]\n");
}

#[test]
fn duplicates_are_removed() {
    // [x], [x] becomes [x]
    assert_eq!(kb_text(&["x", "x"]), "[x]\n");
    assert_eq!(kb_text(&["a | b", "b | a"]), "[a, b]\n");
}

#[test]
fn tautologies_are_removed() {
    // [x, !x] becomes empty
    assert_eq!(kb_text(&["x | !x"]), "");
}

#[test]
fn contradiction_leaves_the_empty_fact() {
    assert_eq!(kb_text(&["a", "!a"]), "[]\n");
}

#[test]
fn implication_chain_is_propagated() {
    assert_eq!(kb_text(&["a", "a > b", "b > c"]), "[a]\n[b]\n[c]\n");
}

#[test]
fn clauses_of_a_conjunction() {
    assert_eq!(kb_text(&["(a | b) & (c | !d)"]), "[a, b]\n[c, !d]\n");
}

#[test]
fn repeated_literal_is_kept_once() {
    assert_eq!(kb_text(&["a | a | b"]), "[a, b]\n");
}

#[test]
fn empty_workspace_gives_empty_knowledge_base() {
    assert_eq!(kb_text(&[]), "");
}

#[test]
fn biconditional_knowledge_base() {
    assert_eq!(kb_text(&["a <> b", "a"]), "[b]\n[a]\n");
}

#[test]
fn fact_set_operations() {
    let fact = KnowledgeBaseFact::new(vec![lit(false, 0), lit(true, 1)]);
    let smaller = KnowledgeBaseFact::new(vec![lit(true, 1)]);
    let same = KnowledgeBaseFact::new(vec![lit(true, 1), lit(false, 0)]);
    assert!(smaller.is_subset(&fact));
    assert!(!fact.is_subset(&smaller));
    assert!(fact == same);
    assert!(fact != smaller);
    assert!(fact.contains(&lit(true, 1)));
    assert!(!fact.contains(&lit(false, 1)));
    assert!(!fact.tautology());
    assert!(KnowledgeBaseFact::new(vec![lit(false, 0), lit(true, 0)]).tautology());
    assert!(!fact.contradiction());
    assert!(KnowledgeBaseFact::new(vec![]).contradiction());
    assert_eq!(smaller.is_unit(), Some(&lit(true, 1)));
    assert_eq!(fact.is_unit(), None);
    assert_eq!(fact.literals().len(), 2);
}

#[test]
fn fact_filters() {
    let mut fact = KnowledgeBaseFact::new(vec![lit(false, 0), lit(true, 1), lit(false, 2)]);
    fact.filter_literal(&lit(true, 1));
    assert_eq!(fact.literals(), &vec![lit(false, 0), lit(false, 2)]);
    assert!(fact.filter_negative_literals(&vec![lit(true, 2)]));
    assert_eq!(fact.literals(), &vec![lit(false, 0)]);
    assert!(!fact.filter_negative_literals(&vec![lit(false, 0)]));
    assert_eq!(fact.literals(), &vec![lit(false, 0)]);
}

#[test]
fn literal_operations() {
    let a = lit(false, 3);
    assert!(!a.not());
    assert_eq!(a.var(), &Variable(3));
    assert_eq!(a.negated(), lit(true, 3));
    assert!(a.complement_of(&lit(true, 3)));
    assert!(!a.complement_of(&lit(false, 3)));
    assert!(!a.complement_of(&lit(true, 4)));
}

#[test]
fn knowledge_base_of_one_formula_and_combine() {
    let mut names = VariableNames::new();
    let e1 = Expression::parse_string_with_variable_names("a & (b | c)", &mut names).unwrap();
    let e2 = Expression::parse_string_with_variable_names("!(c & a)", &mut names).unwrap();
    let mut kb = KnowledgeBase::from_expression(e1);
    assert_eq!(kb.display(&names), "[a]\n[b, c]\n");
    kb.combine(KnowledgeBase::from_expression(e2));
    assert_eq!(kb.display(&names), "[a]\n[b, c]\n[!c, !a]\n");
    kb.simplify();
    assert_eq!(kb.display(&names), "[a]\n[b]\n[!c]\n");
    let empty = KnowledgeBase::tautology();
    assert_eq!(empty.display(&names), "");
}

#[test]
fn or_over_a_nested_and_is_read_as_one_clause() {
    // the top-down distribution leaves an AND under the outer OR here, and
    // the clause reader takes every literal under that OR into one clause
    assert_eq!(kb_text(&["((a & b) | c) | d"]), "[a, c, b, d]\n");
}

#[test]
fn simplifying_twice_changes_nothing() {
    let mut names = VariableNames::new();
    let e = Expression::parse_string_with_variable_names("(a | b) & (!a | c) & a & (c | d | !c)", &mut names)
        .unwrap();
    let mut kb = KnowledgeBase::from_expression(e);
    kb.simplify();
    let once = kb.display(&names);
    kb.simplify();
    assert_eq!(kb.display(&names), once);
    assert_eq!(once, "[c]\n[a]\n");
}
