use vstd::prelude::*;

use crate::variable::Variable;
use crate::names::{VariableNames, var_set};
use crate::parser::{ExpressionParser, ExpressionParseError, spec_parse_string};

verus! {

/// A node of a formula tree.
#[derive(Debug)]
pub enum ExpressionNode {
    And(Box<ExpressionNode>, Box<ExpressionNode>),
    Or(Box<ExpressionNode>, Box<ExpressionNode>),
    Not(Box<ExpressionNode>),
    Variable(Variable),
}

/// `a ^ b` as the parser writes it: `(a | b) & !(a & b)`.
pub open spec fn xor_node(a: ExpressionNode, b: ExpressionNode) -> ExpressionNode {
    ExpressionNode::And(
        Box::new(ExpressionNode::Or(Box::new(a), Box::new(b))),
        Box::new(ExpressionNode::Not(Box::new(ExpressionNode::And(Box::new(a), Box::new(b))))),
    )
}

/// `a > b` as the parser writes it: `!a | b`.
pub open spec fn implies_node(a: ExpressionNode, b: ExpressionNode) -> ExpressionNode {
    ExpressionNode::Or(Box::new(ExpressionNode::Not(Box::new(a))), Box::new(b))
}

/// `a <> b` as the parser writes it: `!(a | b) | (a & b)`.
pub open spec fn biconditional_node(a: ExpressionNode, b: ExpressionNode) -> ExpressionNode {
    ExpressionNode::Or(
        Box::new(ExpressionNode::Not(Box::new(ExpressionNode::Or(Box::new(a), Box::new(b))))),
        Box::new(ExpressionNode::And(Box::new(a), Box::new(b))),
    )
}

/// Whether every child of `result` is smaller than `input`: a rewriting
/// step with this property can be applied again to the children.
pub open spec fn shrinks(result: ExpressionNode, input: ExpressionNode) -> bool {
    match result {
        ExpressionNode::And(a, b) => a.size() < input.size() && b.size() < input.size(),
        ExpressionNode::Or(a, b) => a.size() < input.size() && b.size() < input.size(),
        ExpressionNode::Not(a) => a.size() < input.size(),
        ExpressionNode::Variable(_) => true,
    }
}

/// The rewriting step of `pushdown_not`, as a function.
pub open spec fn pushdown_step() -> spec_fn(ExpressionNode) -> ExpressionNode {
    |n: ExpressionNode| n.spec_pushdown_not()
}

/// The rewriting step of `distribute_or`, as a function.
pub open spec fn distribute_step() -> spec_fn(ExpressionNode) -> ExpressionNode {
    |n: ExpressionNode| n.spec_distribute_or()
}

impl ExpressionNode {
    /// Number of nodes of the tree.
    pub open spec fn size(self) -> nat
        decreases self,
    {
        match self {
            ExpressionNode::And(a, b) => 1 + a.size() + b.size(),
            ExpressionNode::Or(a, b) => 1 + a.size() + b.size(),
            ExpressionNode::Not(a) => 1 + a.size(),
            ExpressionNode::Variable(_) => 1,
        }
    }

    /// The truth value of the formula under the valuation `env`.
    pub open spec fn eval(self, env: spec_fn(Variable) -> bool) -> bool
        decreases self,
    {
        match self {
            ExpressionNode::And(a, b) => a.eval(env) && b.eval(env),
            ExpressionNode::Or(a, b) => a.eval(env) || b.eval(env),
            ExpressionNode::Not(a) => !a.eval(env),
            ExpressionNode::Variable(v) => env(v),
        }
    }

    /// Every variable of the formula lies in `vars`.
    pub open spec fn vars_within(self, vars: Set<Variable>) -> bool
        decreases self,
    {
        match self {
            ExpressionNode::And(a, b) => a.vars_within(vars) && b.vars_within(vars),
            ExpressionNode::Or(a, b) => a.vars_within(vars) && b.vars_within(vars),
            ExpressionNode::Not(a) => a.vars_within(vars),
            ExpressionNode::Variable(v) => vars.contains(v),
        }
    }

    /// Negations stand only directly in front of variables.
    pub open spec fn negations_on_variables(self) -> bool
        decreases self,
    {
        match self {
            ExpressionNode::And(a, b) => a.negations_on_variables() && b.negations_on_variables(),
            ExpressionNode::Or(a, b) => a.negations_on_variables() && b.negations_on_variables(),
            ExpressionNode::Not(a) => *a is Variable,
            ExpressionNode::Variable(_) => true,
        }
    }

    /// No negation stands directly in front of another negation.
    pub open spec fn no_double_negation(self) -> bool
        decreases self,
    {
        match self {
            ExpressionNode::And(a, b) => a.no_double_negation() && b.no_double_negation(),
            ExpressionNode::Or(a, b) => a.no_double_negation() && b.no_double_negation(),
            ExpressionNode::Not(a) => !(*a is Not) && a.no_double_negation(),
            ExpressionNode::Variable(_) => true,
        }
    }

    /// A variable or a negated variable.
    pub open spec fn is_literal(self) -> bool {
        match self {
            ExpressionNode::Variable(_) => true,
            ExpressionNode::Not(a) => *a is Variable,
            _ => false,
        }
    }

    /// A disjunction of literals.
    pub open spec fn is_clause(self) -> bool
        decreases self,
    {
        match self {
            ExpressionNode::Or(a, b) => a.is_clause() && b.is_clause(),
            _ => self.is_literal(),
        }
    }

    /// A conjunction of clauses (conjunctive normal form).
    pub open spec fn is_cnf(self) -> bool
        decreases self,
    {
        match self {
            ExpressionNode::And(a, b) => a.is_cnf() && b.is_cnf(),
            _ => self.is_clause(),
        }
    }

    /// An OR node that has an AND node as a child.
    pub open spec fn is_or_over_and(self) -> bool {
        match self {
            ExpressionNode::Or(a, b) => *a is And || *b is And,
            _ => false,
        }
    }

    /// One step of moving a negation towards the variables.
    pub open spec fn spec_pushdown_not(self) -> ExpressionNode {
        match self {
            ExpressionNode::Not(node) => match *node {
                ExpressionNode::And(a, b) => ExpressionNode::Or(
                    Box::new(ExpressionNode::Not(a)),
                    Box::new(ExpressionNode::Not(b)),
                ),
                ExpressionNode::Or(a, b) => ExpressionNode::And(
                    Box::new(ExpressionNode::Not(a)),
                    Box::new(ExpressionNode::Not(b)),
                ),
                ExpressionNode::Not(a) => *a,
                ExpressionNode::Variable(v) => ExpressionNode::Not(
                    Box::new(ExpressionNode::Variable(v)),
                ),
            },
            _ => self,
        }
    }

    /// One step of distributing an OR over an AND child.
    pub open spec fn spec_distribute_or(self) -> ExpressionNode {
        match self {
            ExpressionNode::Or(a, b) => match *b {
                ExpressionNode::And(ba, bb) => ExpressionNode::And(
                    Box::new(ExpressionNode::Or(a, ba)),
                    Box::new(ExpressionNode::Or(a, bb)),
                ),
                _ => match *a {
                    ExpressionNode::And(aa, ab) => ExpressionNode::And(
                        Box::new(ExpressionNode::Or(aa, b)),
                        Box::new(ExpressionNode::Or(ab, b)),
                    ),
                    _ => self,
                },
            },
            _ => self,
        }
    }

    /// Apply `step` to the node, then to the children of what it gave,
    /// top-down through the whole tree.
    pub open spec fn spec_traverse(self, step: spec_fn(ExpressionNode) -> ExpressionNode) -> ExpressionNode
        decreases self.size(),
    {
        let node = step(self);
        if shrinks(node, self) {
            match node {
                ExpressionNode::And(a, b) => ExpressionNode::And(
                    Box::new(a.spec_traverse(step)),
                    Box::new(b.spec_traverse(step)),
                ),
                ExpressionNode::Or(a, b) => ExpressionNode::Or(
                    Box::new(a.spec_traverse(step)),
                    Box::new(b.spec_traverse(step)),
                ),
                ExpressionNode::Not(a) => ExpressionNode::Not(Box::new(a.spec_traverse(step))),
                ExpressionNode::Variable(v) => ExpressionNode::Variable(v),
            }
        } else {
            node
        }
    }

    /// Negations pushed down through the whole tree.
    pub open spec fn spec_pushdown_not_recursive(self) -> ExpressionNode {
        self.spec_traverse(pushdown_step())
    }

    /// ORs distributed over ANDs through the whole tree.
    pub open spec fn spec_distribute_or_recursive(self) -> ExpressionNode {
        self.spec_traverse(distribute_step())
    }

    /// The tree that the knowledge base of a formula is read from.
    pub open spec fn spec_cnf_tree(self) -> ExpressionNode {
        self.spec_pushdown_not_recursive().spec_distribute_or_recursive()
    }
}

impl Clone for ExpressionNode {
    fn clone(&self) -> (res: Self)
        ensures
            res == *self,
        decreases self,
    {
        match self {
            ExpressionNode::And(a, b) => ExpressionNode::And(
                Box::new((**a).clone()),
                Box::new((**b).clone()),
            ),
            ExpressionNode::Or(a, b) => ExpressionNode::Or(
                Box::new((**a).clone()),
                Box::new((**b).clone()),
            ),
            ExpressionNode::Not(a) => ExpressionNode::Not(Box::new((**a).clone())),
            ExpressionNode::Variable(v) => ExpressionNode::Variable(*v),
        }
    }
}

impl ExpressionNode {
    pub fn new_variable(var: Variable) -> (node: Box<Self>)
        ensures
            *node == ExpressionNode::Variable(var),
    {
        Box::new(Self::Variable(var))
    }

    pub fn new_and(a: Box<Self>, b: Box<Self>) -> (node: Box<Self>)
        ensures
            *node == ExpressionNode::And(a, b),
    {
        Box::new(Self::And(a, b))
    }

    pub fn new_or(a: Box<Self>, b: Box<Self>) -> (node: Box<Self>)
        ensures
            *node == ExpressionNode::Or(a, b),
    {
        Box::new(Self::Or(a, b))
    }

    pub fn new_not(a: Box<Self>) -> (node: Box<Self>)
        ensures
            *node == ExpressionNode::Not(a),
    {
        Box::new(Self::Not(a))
    }

    /// `a ^ b`, written as `(a | b) & !(a & b)`.
    pub fn new_xor(a: Box<Self>, b: Box<Self>) -> (node: Box<Self>)
        ensures
            *node == xor_node(*a, *b),
            forall|env: spec_fn(Variable) -> bool|
                #[trigger] node.eval(env) == (a.eval(env) != b.eval(env)),
    {
        let or = Self::new_or(Box::new((*a).clone()), Box::new((*b).clone()));
        let and = Self::new_and(a, b);
        let node = Self::new_and(or, Self::new_not(and));
        assert forall|env: spec_fn(Variable) -> bool|
            #[trigger] node.eval(env) == (a.eval(env) != b.eval(env)) by {
            reveal_with_fuel(ExpressionNode::eval, 3);
        }
        node
    }

    /// `a > b`, written as `!a | b`.
    pub fn new_implies(a: Box<Self>, b: Box<Self>) -> (node: Box<Self>)
        ensures
            *node == implies_node(*a, *b),
            forall|env: spec_fn(Variable) -> bool|
                #[trigger] node.eval(env) == (a.eval(env) ==> b.eval(env)),
    {
        let node = Self::new_or(Self::new_not(a), b);
        assert forall|env: spec_fn(Variable) -> bool|
            #[trigger] node.eval(env) == (a.eval(env) ==> b.eval(env)) by {
            reveal_with_fuel(ExpressionNode::eval, 2);
        }
        node
    }

    /// `a <> b`, written as `!(a | b) | (a & b)`.
    pub fn new_biconditional(a: Box<Self>, b: Box<Self>) -> (node: Box<Self>)
        ensures
            *node == biconditional_node(*a, *b),
            forall|env: spec_fn(Variable) -> bool|
                #[trigger] node.eval(env) == (a.eval(env) == b.eval(env)),
    {
        let or = Self::new_or(Box::new((*a).clone()), Box::new((*b).clone()));
        let and = Self::new_and(a, b);
        let node = Self::new_or(Self::new_not(or), and);
        assert forall|env: spec_fn(Variable) -> bool|
            #[trigger] node.eval(env) == (a.eval(env) == b.eval(env)) by {
            reveal_with_fuel(ExpressionNode::eval, 3);
        }
        node
    }
}

/// A parsed formula.
#[derive(Debug)]
pub struct Expression {
    node: Box<ExpressionNode>,
}

impl View for Expression {
    type V = ExpressionNode;

    closed spec fn view(&self) -> ExpressionNode {
        *self.node
    }
}

impl Clone for Expression {
    fn clone(&self) -> (res: Self)
        ensures
            res@ == self@,
    {
        Expression { node: Box::new((*self.node).clone()) }
    }
}

impl Expression {
    /// Parses `input` with a fresh table of variable names, and gives the
    /// formula with that table.
    pub fn parse_string(input: &str) -> (res: Result<(Self, VariableNames), ExpressionParseError>)
        ensures
            res is Ok <==> spec_parse_string(input@, Seq::empty()).0 is Some,
            res matches Ok((expr, names)) ==> {
                &&& expr@ == spec_parse_string(input@, Seq::empty()).0->0
                &&& names@ == spec_parse_string(input@, Seq::empty()).1
                &&& names.wf()
                &&& expr@.vars_within(var_set(names@))
            },
    {
        let mut names = VariableNames::new();
        let node = ExpressionParser::parse_string(input, &mut names)?;
        Ok((Self { node }, names))
    }

    /// Parses `input`, entering its variable names into `variable_names`
    /// (also those met before a failure).
    pub fn parse_string_with_variable_names(input: &str, variable_names: &mut VariableNames) -> (res:
        Result<Self, ExpressionParseError>)
        requires
            old(variable_names).wf(),
        ensures
            final(variable_names).wf(),
            final(variable_names)@ == spec_parse_string(input@, old(variable_names)@).1,
            res is Ok <==> spec_parse_string(input@, old(variable_names)@).0 is Some,
            res matches Ok(expr) ==> expr@ == spec_parse_string(input@, old(variable_names)@).0->0,
            res matches Ok(expr) ==> expr@.vars_within(var_set(final(variable_names)@)),
            var_set(old(variable_names)@).subset_of(var_set(final(variable_names)@)),
    {
        let node = ExpressionParser::parse_string(input, variable_names)?;
        Ok(Self { node })
    }

    /// The formula's tree.
    pub fn node_owned(self) -> (node: Box<ExpressionNode>)
        ensures
            *node == self@,
    {
        self.node
    }
}

impl ExpressionNode {
    /// Whether negations stand only directly in front of variables.
    pub fn has_negations_only_on_variables(&self) -> (res: bool)
        ensures
            res == self.negations_on_variables(),
        decreases self,
    {
        match self {
            ExpressionNode::And(a, b) => a.has_negations_only_on_variables()
                && b.has_negations_only_on_variables(),
            ExpressionNode::Or(a, b) => a.has_negations_only_on_variables()
                && b.has_negations_only_on_variables(),
            ExpressionNode::Not(a) => matches!(**a, ExpressionNode::Variable(_)),
            ExpressionNode::Variable(_) => true,
        }
    }
}

/// Every step of `pushdown_not` leaves children smaller than its input.
pub proof fn lemma_pushdown_step_shrinks()
    ensures
        forall|n: ExpressionNode| #[trigger] shrinks(pushdown_step()(n), n),
{
    assert forall|n: ExpressionNode| #[trigger] shrinks(pushdown_step()(n), n) by {
        reveal_with_fuel(ExpressionNode::size, 3);
    }
}

/// Every step of `distribute_or` leaves children smaller than its input.
pub proof fn lemma_distribute_step_shrinks()
    ensures
        forall|n: ExpressionNode| #[trigger] shrinks(distribute_step()(n), n),
{
    assert forall|n: ExpressionNode| #[trigger] shrinks(distribute_step()(n), n) by {
        reveal_with_fuel(ExpressionNode::size, 3);
    }
}

impl ExpressionNode {
    /// Applies `closure` to this node, then recursively to the children of
    /// what it returned.
    fn traverse_owned<F: Fn(Box<ExpressionNode>) -> Box<ExpressionNode>>(
        self: Box<Self>,
        closure: &F,
        Ghost(step): Ghost<spec_fn(ExpressionNode) -> ExpressionNode>,
    ) -> (res: Box<Self>)
        requires
            forall|n: Box<ExpressionNode>| #[trigger] call_requires(*closure, (n,)),
            forall|n: Box<ExpressionNode>, m: Box<ExpressionNode>|
                #[trigger] call_ensures(*closure, (n,), m) ==> *m == step(*n),
            forall|n: ExpressionNode| #[trigger] shrinks(step(n), n),
        ensures
            *res == self.spec_traverse(step),
        decreases self.size(),
    {
        let ghost input = *self;
        let node = closure(self);
        assert(shrinks(step(input), input));
        match *node {
            ExpressionNode::And(a, b) => {
                let a = a.traverse_owned(closure, Ghost(step));
                let b = b.traverse_owned(closure, Ghost(step));
                Self::new_and(a, b)
            },
            ExpressionNode::Or(a, b) => {
                let a = a.traverse_owned(closure, Ghost(step));
                let b = b.traverse_owned(closure, Ghost(step));
                Self::new_or(a, b)
            },
            ExpressionNode::Variable(variable) => Self::new_variable(variable),
            ExpressionNode::Not(a) => {
                let a = a.traverse_owned(closure, Ghost(step));
                Self::new_not(a)
            },
        }
    }

    /// Moves a negation at this node one level down (De Morgan, double
    /// negation); a node that is no negation is returned unchanged.
    fn pushdown_not(self: Box<Self>) -> (res: Box<Self>)
        ensures
            *res == self.spec_pushdown_not(),
            forall|env: spec_fn(Variable) -> bool| #[trigger] res.eval(env) == self.eval(env),
    {
        proof {
            assert forall|env: spec_fn(Variable) -> bool|
                #[trigger] self.spec_pushdown_not().eval(env) == self.eval(env) by {
                lemma_pushdown_step_keeps_meaning(*self, env);
            }
        }
        match *self {
            ExpressionNode::Not(node) => Box::new(
                match *node {
                    ExpressionNode::And(a, b) => ExpressionNode::Or(
                        Box::new(ExpressionNode::Not(a)),
                        Box::new(ExpressionNode::Not(b)),
                    ),
                    ExpressionNode::Or(a, b) => ExpressionNode::And(
                        Box::new(ExpressionNode::Not(a)),
                        Box::new(ExpressionNode::Not(b)),
                    ),
                    ExpressionNode::Not(a) => *a,
                    ExpressionNode::Variable(variable) => ExpressionNode::Not(
                        Box::new(ExpressionNode::Variable(variable)),
                    ),
                },
            ),
            other => Box::new(other),
        }
    }

    /// Pushes every negation down to the variables, top-down.
    pub fn pushdown_not_recursive(self: Box<Self>) -> (res: Box<Self>)
        ensures
            *res == self.spec_pushdown_not_recursive(),
            self.no_double_negation() ==> res.negations_on_variables(),
    {
        proof {
            lemma_pushdown_step_shrinks();
            if self.no_double_negation() {
                lemma_pushdown_reaches_variables(*self);
            }
        }
        let step = |node: Box<ExpressionNode>| -> (r: Box<ExpressionNode>)
            ensures
                *r == node.spec_pushdown_not(),
            { node.pushdown_not() };
        self.traverse_owned(&step, Ghost(pushdown_step()))
    }

    /// Replaces `A | (B & C)` with `(A | B) & (A | C)` and `(B & C) | A`
    /// with `(B | A) & (C | A)`; after it this node is no OR with an AND
    /// child.
    fn distribute_or(self: Box<Self>) -> (res: Box<Self>)
        ensures
            *res == self.spec_distribute_or(),
            !res.is_or_over_and(),
    {
        match *self {
            ExpressionNode::Or(a, b) => {
                match *b {
                    ExpressionNode::And(a_a, a_b) => Self::new_and(
                        Self::new_or(Box::new((*a).clone()), a_a),
                        Self::new_or(a, a_b),
                    ),
                    b_node => {
                        let b = Box::new(b_node);
                        match *a {
                            ExpressionNode::And(b_a, b_b) => Self::new_and(
                                Self::new_or(b_a, Box::new((*b).clone())),
                                Self::new_or(b_b, b),
                            ),
                            a_node => Self::new_or(Box::new(a_node), b),
                        }
                    },
                }
            },
            other => Box::new(other),
        }
    }

    /// Distributes ORs over ANDs, top-down.
    pub fn distribute_or_recursive(self: Box<Self>) -> (res: Box<Self>)
        ensures
            *res == self.spec_distribute_or_recursive(),
    {
        proof {
            lemma_distribute_step_shrinks();
        }
        let step = |node: Box<ExpressionNode>| -> (r: Box<ExpressionNode>)
            ensures
                *r == node.spec_distribute_or(),
            { node.distribute_or() };
        self.traverse_owned(&step, Ghost(distribute_step()))
    }
}

/// One pushdown step keeps the truth value.
pub proof fn lemma_pushdown_step_keeps_meaning(n: ExpressionNode, env: spec_fn(Variable) -> bool)
    ensures
        n.spec_pushdown_not().eval(env) == n.eval(env),
{
    reveal_with_fuel(ExpressionNode::eval, 3);
}

/// One distribution step keeps the truth value.
pub proof fn lemma_distribute_step_keeps_meaning(n: ExpressionNode, env: spec_fn(Variable) -> bool)
    ensures
        n.spec_distribute_or().eval(env) == n.eval(env),
{
    reveal_with_fuel(ExpressionNode::eval, 3);
}

/// A top-down traversal with a shrinking step that keeps the truth value
/// keeps the truth value.
pub proof fn lemma_traverse_keeps_meaning(
    n: ExpressionNode,
    step: spec_fn(ExpressionNode) -> ExpressionNode,
    env: spec_fn(Variable) -> bool,
)
    requires
        forall|x: ExpressionNode| #[trigger] shrinks(step(x), x),
        forall|x: ExpressionNode| #[trigger] step(x).eval(env) == x.eval(env),
    ensures
        n.spec_traverse(step).eval(env) == n.eval(env),
    decreases n.size(),
{
    let node = step(n);
    assert(shrinks(node, n));
    assert(node.eval(env) == n.eval(env));
    match node {
        ExpressionNode::And(a, b) => {
            lemma_traverse_keeps_meaning(*a, step, env);
            lemma_traverse_keeps_meaning(*b, step, env);
        },
        ExpressionNode::Or(a, b) => {
            lemma_traverse_keeps_meaning(*a, step, env);
            lemma_traverse_keeps_meaning(*b, step, env);
        },
        ExpressionNode::Not(a) => {
            lemma_traverse_keeps_meaning(*a, step, env);
        },
        ExpressionNode::Variable(_) => {},
    }
}

/// A top-down traversal with a shrinking step that keeps the variables of a
/// formula within a set keeps them within it.
pub proof fn lemma_traverse_keeps_vars(
    n: ExpressionNode,
    step: spec_fn(ExpressionNode) -> ExpressionNode,
    vars: Set<Variable>,
)
    requires
        forall|x: ExpressionNode| #[trigger] shrinks(step(x), x),
        forall|x: ExpressionNode| x.vars_within(vars) ==> #[trigger] step(x).vars_within(vars),
        n.vars_within(vars),
    ensures
        n.spec_traverse(step).vars_within(vars),
    decreases n.size(),
{
    let node = step(n);
    assert(shrinks(node, n));
    assert(node.vars_within(vars));
    match node {
        ExpressionNode::And(a, b) => {
            lemma_traverse_keeps_vars(*a, step, vars);
            lemma_traverse_keeps_vars(*b, step, vars);
        },
        ExpressionNode::Or(a, b) => {
            lemma_traverse_keeps_vars(*a, step, vars);
            lemma_traverse_keeps_vars(*b, step, vars);
        },
        ExpressionNode::Not(a) => {
            lemma_traverse_keeps_vars(*a, step, vars);
        },
        ExpressionNode::Variable(_) => {},
    }
}

/// Pushing negations down does not change the truth value of a formula.
pub proof fn law_pushdown_not_recursive_keeps_meaning(
    n: ExpressionNode,
    env: spec_fn(Variable) -> bool,
)
    ensures
        n.spec_pushdown_not_recursive().eval(env) == n.eval(env),
{
    lemma_pushdown_step_shrinks();
    assert forall|x: ExpressionNode| #[trigger] pushdown_step()(x).eval(env) == x.eval(env) by {
        lemma_pushdown_step_keeps_meaning(x, env);
    }
    lemma_traverse_keeps_meaning(n, pushdown_step(), env);
}

/// Distributing ORs over ANDs does not change the truth value of a formula.
pub proof fn law_distribute_or_recursive_keeps_meaning(
    n: ExpressionNode,
    env: spec_fn(Variable) -> bool,
)
    ensures
        n.spec_distribute_or_recursive().eval(env) == n.eval(env),
{
    lemma_distribute_step_shrinks();
    assert forall|x: ExpressionNode| #[trigger] distribute_step()(x).eval(env) == x.eval(env) by {
        lemma_distribute_step_keeps_meaning(x, env);
    }
    lemma_traverse_keeps_meaning(n, distribute_step(), env);
}

/// The tree that a knowledge base is read from means the same as the formula.
pub proof fn law_cnf_tree_keeps_meaning(n: ExpressionNode, env: spec_fn(Variable) -> bool)
    ensures
        n.spec_cnf_tree().eval(env) == n.eval(env),
{
    law_pushdown_not_recursive_keeps_meaning(n, env);
    law_distribute_or_recursive_keeps_meaning(n.spec_pushdown_not_recursive(), env);
}

/// The tree that a knowledge base is read from has no variable that the
/// formula does not have.
pub proof fn lemma_cnf_tree_keeps_vars(n: ExpressionNode, vars: Set<Variable>)
    requires
        n.vars_within(vars),
    ensures
        n.spec_cnf_tree().vars_within(vars),
{
    lemma_pushdown_step_shrinks();
    lemma_distribute_step_shrinks();
    assert forall|x: ExpressionNode| x.vars_within(vars) implies #[trigger] pushdown_step()(
        x,
    ).vars_within(vars) by {
        reveal_with_fuel(ExpressionNode::vars_within, 3);
    }
    assert forall|x: ExpressionNode| x.vars_within(vars) implies #[trigger] distribute_step()(
        x,
    ).vars_within(vars) by {
        reveal_with_fuel(ExpressionNode::vars_within, 3);
    }
    lemma_traverse_keeps_vars(n, pushdown_step(), vars);
    lemma_traverse_keeps_vars(n.spec_pushdown_not_recursive(), distribute_step(), vars);
}

/// Distributing ORs keeps negations in front of variables, where they were.
pub proof fn lemma_distribute_keeps_negations_on_variables(n: ExpressionNode)
    requires
        n.negations_on_variables(),
    ensures
        n.spec_distribute_or_recursive().negations_on_variables(),
    decreases n.size(),
{
    lemma_distribute_step_shrinks();
    let node = distribute_step()(n);
    assert(shrinks(node, n));
    assert(node.negations_on_variables()) by {
        reveal_with_fuel(ExpressionNode::negations_on_variables, 3);
    }
    match node {
        ExpressionNode::And(a, b) => {
            lemma_distribute_keeps_negations_on_variables(*a);
            lemma_distribute_keeps_negations_on_variables(*b);
        },
        ExpressionNode::Or(a, b) => {
            lemma_distribute_keeps_negations_on_variables(*a);
            lemma_distribute_keeps_negations_on_variables(*b);
        },
        ExpressionNode::Not(a) => {
            assert(a.spec_distribute_or_recursive() == *a) by {
                assert(distribute_step()(*a) == *a);
            }
        },
        ExpressionNode::Variable(_) => {},
    }
}

/// Under a double negation `!!c`, where `c` is no negation itself, pushing
/// negations down gives what it gives for `c`.
proof fn lemma_pushdown_double_negation(c: ExpressionNode)
    requires
        !(c is Not),
    ensures
        ExpressionNode::Not(Box::new(ExpressionNode::Not(Box::new(c)))).spec_pushdown_not_recursive()
            == c.spec_pushdown_not_recursive(),
{
    lemma_pushdown_step_shrinks();
    let nn = ExpressionNode::Not(Box::new(ExpressionNode::Not(Box::new(c))));
    assert(pushdown_step()(nn) == c);
    assert(pushdown_step()(c) == c);
    assert(shrinks(pushdown_step()(nn), nn));
    assert(shrinks(pushdown_step()(c), c));
}

/// For a formula without double negations, pushing negations down, from
/// the formula itself and (where it is no negation) from its negation,
/// leaves negations only in front of variables.
proof fn lemma_pushdown_reaches_variables(n: ExpressionNode)
    requires
        n.no_double_negation(),
    ensures
        n.spec_pushdown_not_recursive().negations_on_variables(),
        !(n is Not) ==> ExpressionNode::Not(Box::new(n)).spec_pushdown_not_recursive().negations_on_variables(),
    decreases n.size(), 0int,
{
    lemma_pushdown_step_shrinks();
    let neg = ExpressionNode::Not(Box::new(n));
    assert(shrinks(pushdown_step()(n), n));
    assert(shrinks(pushdown_step()(neg), neg));
    match n {
        ExpressionNode::And(a, b) => {
            lemma_pushdown_negated_operand(*a);
            lemma_pushdown_negated_operand(*b);
            assert(pushdown_step()(n) == n);
        },
        ExpressionNode::Or(a, b) => {
            lemma_pushdown_negated_operand(*a);
            lemma_pushdown_negated_operand(*b);
            assert(pushdown_step()(n) == n);
        },
        ExpressionNode::Not(a) => {
            lemma_pushdown_reaches_variables(*a);
        },
        ExpressionNode::Variable(v) => {
            assert(pushdown_step()(n) == n);
            assert(ExpressionNode::Variable(v).spec_pushdown_not_recursive() == n);
        },
    }
}

/// Both facts of `lemma_pushdown_reaches_variables` for an operand `a`,
/// and that its negation, pushed down, has negations only in front of
/// variables.
proof fn lemma_pushdown_negated_operand(a: ExpressionNode)
    requires
        a.no_double_negation(),
    ensures
        a.spec_pushdown_not_recursive().negations_on_variables(),
        ExpressionNode::Not(Box::new(a)).spec_pushdown_not_recursive().negations_on_variables(),
    decreases a.size(), 1int,
{
    lemma_pushdown_reaches_variables(a);
    match a {
        ExpressionNode::Not(c) => {
            lemma_pushdown_reaches_variables(*c);
            lemma_pushdown_double_negation(*c);
        },
        _ => {},
    }
}

/// Pushing negations down leaves every negation directly in front of a
/// variable, for every formula in which no negation stands directly in
/// front of another negation.
pub proof fn law_pushdown_not_recursive_reaches_variables(n: ExpressionNode)
    requires
        n.no_double_negation(),
    ensures
        n.spec_pushdown_not_recursive().negations_on_variables(),
{
    lemma_pushdown_reaches_variables(n);
}

/// Pushing negations down works on both operands of an AND or an OR.
pub proof fn law_pushdown_not_recursive_enters_both_operands(a: ExpressionNode, b: ExpressionNode)
    ensures
        ExpressionNode::And(Box::new(a), Box::new(b)).spec_pushdown_not_recursive()
            == ExpressionNode::And(
            Box::new(a.spec_pushdown_not_recursive()),
            Box::new(b.spec_pushdown_not_recursive()),
        ),
        ExpressionNode::Or(Box::new(a), Box::new(b)).spec_pushdown_not_recursive()
            == ExpressionNode::Or(
            Box::new(a.spec_pushdown_not_recursive()),
            Box::new(b.spec_pushdown_not_recursive()),
        ),
{
    lemma_pushdown_step_shrinks();
    let x = ExpressionNode::And(Box::new(a), Box::new(b));
    let y = ExpressionNode::Or(Box::new(a), Box::new(b));
    assert(pushdown_step()(x) == x);
    assert(pushdown_step()(y) == y);
    assert(shrinks(pushdown_step()(x), x));
    assert(shrinks(pushdown_step()(y), y));
}

} // verus!
