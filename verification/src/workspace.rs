use vstd::prelude::*;

use crate::expression::{
    Expression,
    ExpressionNode,
    lemma_cnf_tree_keeps_vars,
    law_pushdown_not_recursive_reaches_variables,
};
use crate::knowledge_base::{
    KnowledgeBase,
    KnowledgeBaseLiteral,
    node_facts,
    kb_vars_within,
    kb_text,
    kb_holds,
    lemma_node_facts_vars,
    law_combine_holds,
    law_knowledge_base_means_formula,
};
use crate::names::{NameTable, VariableNames, names_unique, var_set};
use crate::parser::{ExpressionParseError, spec_parse_string};
use crate::simplify::{spec_simplify, lemma_simplify_keeps_vars, law_simplify_keeps_meaning};
use crate::variable::Variable;

verus! {

/// The clauses of all formulas, formula after formula.
pub open spec fn all_facts(exprs: Seq<ExpressionNode>) -> Seq<Seq<KnowledgeBaseLiteral>>
    decreases exprs.len(),
{
    if exprs.len() == 0 {
        Seq::empty()
    } else {
        all_facts(exprs.drop_last()) + node_facts(exprs.last().spec_cnf_tree())
    }
}

/// Every formula can be turned into clauses: after negations are pushed
/// down, they stand only in front of variables.
pub open spec fn all_convertible(exprs: Seq<ExpressionNode>) -> bool {
    forall|i: int|
        0 <= i < exprs.len() ==> (#[trigger] exprs[i]).spec_pushdown_not_recursive().negations_on_variables()
}

/// The formulas parsed so far, in order.
pub struct ExpressionSet {
    set: Vec<Expression>,
}

impl View for ExpressionSet {
    type V = Seq<ExpressionNode>;

    closed spec fn view(&self) -> Seq<ExpressionNode> {
        self.set@.map_values(|e: Expression| e@)
    }
}

impl ExpressionSet {
    pub fn new() -> (set: Self)
        ensures
            set@ == Seq::<ExpressionNode>::empty(),
    {
        let set = Self { set: Vec::new() };
        assert(set@ =~= Seq::<ExpressionNode>::empty());
        set
    }

    pub fn push(&mut self, expr: Expression)
        ensures
            final(self)@ == old(self)@.push(expr@),
    {
        self.set.push(expr);
        assert(self@ =~= old(self)@.push(expr@));
    }
}

/// A session: the variable names and the formulas parsed so far.
pub struct Workspace {
    variable_names: VariableNames,
    expression_set: ExpressionSet,
}

impl Workspace {
    /// The names of the variables met so far.
    pub closed spec fn names(&self) -> NameTable {
        self.variable_names@
    }

    /// The formulas parsed so far.
    pub closed spec fn expressions(&self) -> Seq<ExpressionNode> {
        self.expression_set@
    }

    /// No name is entered twice, and every variable of every formula has a
    /// name.
    pub open spec fn wf(&self) -> bool {
        &&& names_unique(self.names())
        &&& forall|i: int|
            0 <= i < self.expressions().len() ==> (#[trigger] self.expressions()[i]).vars_within(
                var_set(self.names()),
            )
    }

    pub fn new() -> (ws: Self)
        ensures
            ws.names() == Seq::<(Seq<char>, Variable)>::empty(),
            ws.expressions() == Seq::<ExpressionNode>::empty(),
            ws.wf(),
    {
        Self { variable_names: VariableNames::new(), expression_set: ExpressionSet::new() }
    }

    /// Parses `input` and adds the formula; the variable names met are
    /// entered, also where parsing fails.
    pub fn parse_expression(&mut self, input: &str) -> (res: Result<(), ExpressionParseError>)
        requires
            old(self).wf(),
        ensures
            final(self).wf(),
            final(self).names() == spec_parse_string(input@, old(self).names()).1,
            res is Ok <==> spec_parse_string(input@, old(self).names()).0 is Some,
            res is Ok ==> final(self).expressions() == old(self).expressions().push(
                spec_parse_string(input@, old(self).names()).0->0,
            ),
            res is Err ==> final(self).expressions() == old(self).expressions(),
    {
        let ghost old_names = self.variable_names@;
        match Expression::parse_string_with_variable_names(input, &mut self.variable_names) {
            Ok(expr) => {
                self.expression_set.push(expr);
                proof {
                    assert forall|i: int| 0 <= i < self.expressions().len() implies (
                    #[trigger] self.expressions()[i]).vars_within(var_set(self.names())) by {
                        if i < old(self).expressions().len() {
                            assert(self.expressions()[i] == old(self).expressions()[i]);
                            crate::parser::lemma_vars_within_grows(
                                self.expressions()[i],
                                var_set(old_names),
                                var_set(self.names()),
                            );
                        }
                    }
                }
                Ok(())
            },
            Err(e) => {
                proof {
                    assert forall|i: int| 0 <= i < self.expressions().len() implies (
                    #[trigger] self.expressions()[i]).vars_within(var_set(self.names())) by {
                        crate::parser::lemma_vars_within_grows(
                            self.expressions()[i],
                            var_set(old_names),
                            var_set(self.names()),
                        );
                    }
                }
                Err(e)
            },
        }
    }

    /// Whether every formula can be turned into clauses (see
    /// `all_convertible`).
    pub fn knowledge_base_is_defined(&self) -> (res: bool)
        ensures
            res == all_convertible(self.expressions()),
    {
        let mut i: usize = 0;
        while i < self.expression_set.set.len()
            invariant
                i <= self.expressions().len(),
                self.expressions().len() == self.expression_set.set@.len(),
                forall|j: int|
                    0 <= j < i ==> (#[trigger] self.expressions()[j]).spec_pushdown_not_recursive().negations_on_variables(),
            decreases self.expressions().len() - i,
        {
            let node = self.expression_set.set[i].clone().node_owned().pushdown_not_recursive();
            assert(self.expression_set.set@[i as int]@ == self.expressions()[i as int]);
            if !node.has_negations_only_on_variables() {
                return false;
            }
            i = i + 1;
        }
        true
    }

    /// The knowledge base of all formulas: their clauses, formula after
    /// formula, simplified.
    pub fn knowledge_base_from_all_expressions(&self) -> (kb: KnowledgeBase)
        requires
            self.wf(),
            all_convertible(self.expressions()),
        ensures
            kb@ == spec_simplify(all_facts(self.expressions())),
            kb.wf(),
            kb_vars_within(kb@, var_set(self.names())),
    {
        let ghost exprs = self.expressions();
        let mut kb = KnowledgeBase::tautology();
        let mut i: usize = 0;
        while i < self.expression_set.set.len()
            invariant
                i <= exprs.len(),
                exprs == self.expressions(),
                exprs.len() == self.expression_set.set@.len(),
                self.wf(),
                all_convertible(exprs),
                kb.wf(),
                kb@ == all_facts(exprs.take(i as int)),
                kb_vars_within(kb@, var_set(self.names())),
            decreases exprs.len() - i,
        {
            let expr = self.expression_set.set[i].clone();
            assert(expr@ == exprs[i as int]);
            let ghost before = kb@;
            let part = KnowledgeBase::from_expression(expr);
            proof {
                lemma_cnf_tree_keeps_vars(exprs[i as int], var_set(self.names()));
                lemma_node_facts_vars(exprs[i as int].spec_cnf_tree(), var_set(self.names()));
            }
            kb.combine(part);
            proof {
                assert(exprs.take(i + 1).drop_last() =~= exprs.take(i as int));
                assert(kb@ == all_facts(exprs.take(i + 1)));
                assert forall|k: int, j: int|
                    0 <= k < kb@.len() && 0 <= j < kb@[k].len() implies var_set(self.names()).contains(
                    #[trigger] kb@[k][j].var) by {
                    if k < before.len() {
                        assert(kb@[k] == before[k]);
                    } else {
                        assert(kb@[k] == node_facts(exprs[i as int].spec_cnf_tree())[k - before.len()]);
                    }
                }
            }
            i = i + 1;
        }
        assert(exprs.take(i as int) =~= exprs);
        let ghost combined = kb@;
        kb.simplify();
        proof {
            lemma_simplify_keeps_vars(combined, var_set(self.names()));
        }
        kb
    }

    /// The simplified knowledge base of all formulas, written out with
    /// the variables' names.
    pub fn display_knowledge_base(&self) -> (text: String)
        requires
            self.wf(),
            all_convertible(self.expressions()),
        ensures
            text@ == kb_text(
                spec_simplify(all_facts(self.expressions())),
                self.names(),
                spec_simplify(all_facts(self.expressions())).len() as int,
            ),
    {
        self.knowledge_base_from_all_expressions().display(&self.variable_names)
    }
}

/// The clauses of all formulas hold exactly where all formulas hold, when
/// each formula's tree is in conjunctive normal form.
proof fn lemma_all_facts_hold(exprs: Seq<ExpressionNode>, env: spec_fn(Variable) -> bool)
    requires
        forall|i: int| 0 <= i < exprs.len() ==> (#[trigger] exprs[i]).spec_cnf_tree().is_cnf(),
    ensures
        kb_holds(all_facts(exprs), env) == (forall|i: int| 0 <= i < exprs.len() ==> #[trigger] exprs[i].eval(env)),
    decreases exprs.len(),
{
    if exprs.len() > 0 {
        let init = exprs.drop_last();
        assert forall|i: int| 0 <= i < init.len() implies (#[trigger] init[i]).spec_cnf_tree().is_cnf() by {
            assert(init[i] == exprs[i]);
        }
        lemma_all_facts_hold(init, env);
        law_combine_holds(all_facts(init), node_facts(exprs.last().spec_cnf_tree()), env);
        law_knowledge_base_means_formula(exprs.last(), env);
        if forall|i: int| 0 <= i < init.len() ==> #[trigger] init[i].eval(env) {
            if exprs.last().eval(env) {
                assert forall|i: int| 0 <= i < exprs.len() implies #[trigger] exprs[i].eval(env) by {
                    if i < init.len() {
                        assert(init[i] == exprs[i]);
                    }
                }
            }
        }
        if forall|i: int| 0 <= i < exprs.len() ==> #[trigger] exprs[i].eval(env) {
            assert(exprs[exprs.len() - 1].eval(env));
            assert forall|i: int| 0 <= i < init.len() implies #[trigger] init[i].eval(env) by {
                assert(init[i] == exprs[i]);
                assert(exprs[i].eval(env));
            }
        }
    }
}

/// The knowledge base of a workspace holds exactly where all its formulas
/// hold, when each formula's tree is in conjunctive normal form.
pub proof fn law_knowledge_base_means_all_formulas(exprs: Seq<ExpressionNode>, env: spec_fn(Variable) -> bool)
    requires
        forall|i: int| 0 <= i < exprs.len() ==> (#[trigger] exprs[i]).spec_cnf_tree().is_cnf(),
    ensures
        kb_holds(spec_simplify(all_facts(exprs)), env) == (forall|i: int|
            0 <= i < exprs.len() ==> #[trigger] exprs[i].eval(env)),
{
    lemma_all_facts_hold(exprs, env);
    law_simplify_keeps_meaning(all_facts(exprs), env);
}

/// A knowledge base can be built from formulas none of which has a negation
/// directly in front of another negation.
pub proof fn law_formulas_without_double_negation_are_convertible(exprs: Seq<ExpressionNode>)
    requires
        forall|i: int| 0 <= i < exprs.len() ==> (#[trigger] exprs[i]).no_double_negation(),
    ensures
        all_convertible(exprs),
{
    assert forall|i: int| 0 <= i < exprs.len() implies (
    #[trigger] exprs[i]).spec_pushdown_not_recursive().negations_on_variables() by {
        law_pushdown_not_recursive_reaches_variables(exprs[i]);
    }
}

} // verus!
