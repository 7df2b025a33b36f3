use vstd::prelude::*;
use vstd::string::*;

use crate::expression::{
    Expression,
    ExpressionNode,
    lemma_distribute_keeps_negations_on_variables,
};
use crate::names::{NameTable, VariableNames, lookup_var, var_set, lemma_lookup_var_some};
use crate::variable::Variable;
use crate::simplify::{
    kept_prefix,
    kept_facts,
    contains_same,
    has_strict_subset,
    unit_literals,
    propagate_units,
    simplify_round,
    round_changes,
    spec_simplify,
    simplify_measure,
    lemma_round_measure,
};

verus! {

/// A variable or its negation.
#[derive(Clone, Copy, Debug, PartialEq, Eq, Structural)]
pub struct KnowledgeBaseLiteral {
    pub not: bool,
    pub var: Variable,
}

/// The literal with the opposite sign.
pub open spec fn negation(l: KnowledgeBaseLiteral) -> KnowledgeBaseLiteral {
    KnowledgeBaseLiteral { not: !l.not, var: l.var }
}

/// The truth value of a literal under `env`.
pub open spec fn literal_holds(l: KnowledgeBaseLiteral, env: spec_fn(Variable) -> bool) -> bool {
    if l.not {
        !env(l.var)
    } else {
        env(l.var)
    }
}

/// A clause (a fact) holds when one of its literals holds; the empty clause
/// is a contradiction.
pub open spec fn clause_holds(c: Seq<KnowledgeBaseLiteral>, env: spec_fn(Variable) -> bool) -> bool {
    exists|i: int| 0 <= i < c.len() && #[trigger] literal_holds(c[i], env)
}

/// A knowledge base holds when every clause holds; the empty one is a
/// tautology.
pub open spec fn kb_holds(facts: Seq<Seq<KnowledgeBaseLiteral>>, env: spec_fn(Variable) -> bool) -> bool {
    forall|k: int| 0 <= k < facts.len() ==> #[trigger] clause_holds(facts[k], env)
}

/// Every literal of `a` is in `b`.
pub open spec fn clause_subset(a: Seq<KnowledgeBaseLiteral>, b: Seq<KnowledgeBaseLiteral>) -> bool {
    forall|i: int| 0 <= i < a.len() ==> b.contains(#[trigger] a[i])
}

/// Two clauses with the same literals.
pub open spec fn same_clause(a: Seq<KnowledgeBaseLiteral>, b: Seq<KnowledgeBaseLiteral>) -> bool {
    clause_subset(a, b) && clause_subset(b, a)
}

/// A clause with a literal and its negation: it always holds.
pub open spec fn is_tautology(c: Seq<KnowledgeBaseLiteral>) -> bool {
    exists|i: int| 0 <= i < c.len() && c.contains(negation(#[trigger] c[i]))
}

/// Every literal of every clause has its variable in `vars`.
pub open spec fn kb_vars_within(facts: Seq<Seq<KnowledgeBaseLiteral>>, vars: Set<Variable>) -> bool {
    forall|k: int, i: int|
        0 <= k < facts.len() && 0 <= i < facts[k].len() ==> vars.contains(#[trigger] facts[k][i].var)
}

/// Every clause is free of repeated literals.
pub open spec fn clauses_wf(facts: Seq<Seq<KnowledgeBaseLiteral>>) -> bool {
    forall|k: int| 0 <= k < facts.len() ==> #[trigger] facts[k].no_duplicates()
}

/// The literals that survive unit propagation with `units`: those whose
/// negation is not a unit.
pub open spec fn unrefuted(units: Set<KnowledgeBaseLiteral>) -> spec_fn(KnowledgeBaseLiteral) -> bool {
    |l: KnowledgeBaseLiteral| !units.contains(negation(l))
}

/// A literal other than `literal`.
pub open spec fn other_than(literal: KnowledgeBaseLiteral) -> spec_fn(KnowledgeBaseLiteral) -> bool {
    |l: KnowledgeBaseLiteral| l != literal
}

/// `fact` after `literal` is added, as to a set.
pub open spec fn insert_literal(fact: Seq<KnowledgeBaseLiteral>, literal: KnowledgeBaseLiteral) -> Seq<KnowledgeBaseLiteral> {
    if fact.contains(literal) {
        fact
    } else {
        fact.push(literal)
    }
}

/// `fact` after each of `ls` is added in turn, as to a set.
pub open spec fn insert_all(fact: Seq<KnowledgeBaseLiteral>, ls: Seq<KnowledgeBaseLiteral>) -> Seq<KnowledgeBaseLiteral>
    decreases ls.len(),
{
    if ls.len() == 0 {
        fact
    } else {
        insert_literal(insert_all(fact, ls.drop_last()), ls.last())
    }
}

/// The literals of a formula read as one clause: its variables and negated
/// variables, from left to right.
pub open spec fn node_literals(n: ExpressionNode) -> Seq<KnowledgeBaseLiteral>
    decreases n,
{
    match n {
        ExpressionNode::And(a, b) => node_literals(*a) + node_literals(*b),
        ExpressionNode::Or(a, b) => node_literals(*a) + node_literals(*b),
        ExpressionNode::Not(a) => match *a {
            ExpressionNode::Variable(v) => seq![KnowledgeBaseLiteral { not: true, var: v }],
            _ => Seq::empty(),
        },
        ExpressionNode::Variable(v) => seq![KnowledgeBaseLiteral { not: false, var: v }],
    }
}

/// The clauses read from a formula: the operands of its top-level ANDs; an
/// OR below them is one clause of all literals under it.
pub open spec fn node_facts(n: ExpressionNode) -> Seq<Seq<KnowledgeBaseLiteral>>
    decreases n,
{
    match n {
        ExpressionNode::And(a, b) => node_facts(*a) + node_facts(*b),
        _ => seq![insert_all(Seq::empty(), node_literals(n))],
    }
}

/// How a literal is written: `!` before a negated variable, then the name.
pub open spec fn literal_text(l: KnowledgeBaseLiteral, names: NameTable) -> Seq<char> {
    (if l.not {
        "!"@
    } else {
        Seq::empty()
    }) + lookup_var(names, l.var)->0
}

/// The first `i` literals of a clause as written, separated by `", "`.
pub open spec fn literals_text(lits: Seq<KnowledgeBaseLiteral>, names: NameTable, i: int) -> Seq<char>
    decreases i,
{
    if i <= 0 {
        Seq::empty()
    } else {
        literals_text(lits, names, i - 1) + literal_text(lits[i - 1], names) + (if i - 1 != lits.len()
            - 1 {
            ", "@
        } else {
            Seq::empty()
        })
    }
}

/// How a clause is written: `[a, !b]` and a newline.
pub open spec fn fact_text(lits: Seq<KnowledgeBaseLiteral>, names: NameTable) -> Seq<char> {
    "["@ + literals_text(lits, names, lits.len() as int) + "]\n"@
}

/// The first `k` clauses as written, one per line.
pub open spec fn kb_text(facts: Seq<Seq<KnowledgeBaseLiteral>>, names: NameTable, k: int) -> Seq<char>
    decreases k,
{
    if k <= 0 {
        Seq::empty()
    } else {
        kb_text(facts, names, k - 1) + fact_text(facts[k - 1], names)
    }
}

impl KnowledgeBaseLiteral {
    pub fn new(not: bool, var: Variable) -> (literal: Self)
        ensures
            literal.not == not,
            literal.var == var,
    {
        Self { not, var }
    }

    /// Whether the literal is negated.
    pub fn not(&self) -> (res: bool)
        ensures
            res == self.not,
    {
        self.not
    }

    pub fn var(&self) -> (res: &Variable)
        ensures
            *res == self.var,
    {
        &self.var
    }

    /// Whether `other` is this literal's negation.
    pub fn complement_of(&self, other: &KnowledgeBaseLiteral) -> (res: bool)
        ensures
            res == (*self == negation(*other)),
    {
        self.not == !other.not && self.var == other.var
    }

    pub fn negated(&self) -> (res: Self)
        ensures
            res == negation(*self),
    {
        let mut x = self.clone();
        x.not = !x.not;
        x
    }
}

/// Adds `literal` to `set` unless it is there.
fn insert_literal_exec(set: &mut Vec<KnowledgeBaseLiteral>, literal: KnowledgeBaseLiteral)
    ensures
        final(set)@ == insert_literal(old(set)@, literal),
{
    let mut i: usize = 0;
    while i < set.len()
        invariant
            i <= set@.len(),
            set@ == old(set)@,
            forall|j: int| 0 <= j < i ==> set@[j] != literal,
        decreases set@.len() - i,
    {
        if set[i] == literal {
            assert(set@.contains(literal));
            return;
        }
        i = i + 1;
    }
    set.push(literal);
}

/// A clause of the knowledge base: a set of literals, of which one must hold.
#[derive(Debug)]
pub struct KnowledgeBaseFact {
    set: Vec<KnowledgeBaseLiteral>,
}

impl View for KnowledgeBaseFact {
    type V = Seq<KnowledgeBaseLiteral>;

    closed spec fn view(&self) -> Seq<KnowledgeBaseLiteral> {
        self.set@
    }
}

impl Clone for KnowledgeBaseFact {
    fn clone(&self) -> (res: Self)
        ensures
            res@ == self@,
    {
        let set = self.set.clone();
        assert(set@ =~= self.set@);
        KnowledgeBaseFact { set }
    }
}

impl KnowledgeBaseFact {
    /// No literal occurs twice.
    pub open spec fn wf(&self) -> bool {
        self@.no_duplicates()
    }

    pub fn new(set: Vec<KnowledgeBaseLiteral>) -> (fact: Self)
        requires
            set@.no_duplicates(),
        ensures
            fact@ == set@,
            fact.wf(),
    {
        Self { set }
    }

    pub fn literals(&self) -> (res: &Vec<KnowledgeBaseLiteral>)
        ensures
            res@ == self@,
    {
        &self.set
    }

    pub fn contains(&self, literal: &KnowledgeBaseLiteral) -> (res: bool)
        ensures
            res == self@.contains(*literal),
    {
        let mut i: usize = 0;
        while i < self.set.len()
            invariant
                i <= self@.len(),
                forall|j: int| 0 <= j < i ==> self@[j] != *literal,
            decreases self@.len() - i,
        {
            if self.set[i] == *literal {
                return true;
            }
            i = i + 1;
        }
        false
    }

    /// Every literal of this clause is in `other`.
    pub fn is_subset(&self, other: &KnowledgeBaseFact) -> (res: bool)
        ensures
            res == clause_subset(self@, other@),
    {
        let mut i: usize = 0;
        while i < self.set.len()
            invariant
                i <= self@.len(),
                forall|j: int| 0 <= j < i ==> other@.contains(#[trigger] self@[j]),
            decreases self@.len() - i,
        {
            if !other.contains(&self.set[i]) {
                return false;
            }
            i = i + 1;
        }
        true
    }

    /// The clause holds a literal and its negation.
    pub fn tautology(&self) -> (res: bool)
        ensures
            res == is_tautology(self@),
    {
        let mut i: usize = 0;
        while i < self.set.len()
            invariant
                i <= self@.len(),
                forall|j: int| 0 <= j < i ==> !self@.contains(negation(#[trigger] self@[j])),
            decreases self@.len() - i,
        {
            if self.contains(&self.set[i].negated()) {
                return true;
            }
            i = i + 1;
        }
        false
    }

    /// The empty clause: it never holds.
    pub fn contradiction(&self) -> (res: bool)
        ensures
            res == (self@.len() == 0),
    {
        self.set.len() == 0
    }

    /// Removes `literal` from the clause.
    pub fn filter_literal(&mut self, literal: &KnowledgeBaseLiteral)
        ensures
            final(self)@ == old(self)@.filter(other_than(*literal)),
            old(self).wf() ==> final(self).wf(),
    {
        let mut kept: Vec<KnowledgeBaseLiteral> = Vec::new();
        let mut i: usize = 0;
        while i < self.set.len()
            invariant
                i <= self@.len(),
                self@ == old(self)@,
                kept@ == self@.take(i as int).filter(other_than(*literal)),
            decreases self@.len() - i,
        {
            proof {
                self@.take(i as int).lemma_filter_push(self@[i as int], other_than(*literal));
                assert(self@.take(i + 1) =~= self@.take(i as int).push(self@[i as int]));
            }
            if self.set[i] != *literal {
                kept.push(self.set[i]);
            }
            i = i + 1;
        }
        assert(self@.take(i as int) =~= self@);
        proof {
            if self@.no_duplicates() {
                lemma_filter_keeps_no_duplicates(self@, other_than(*literal));
            }
        }
        self.set = kept;
    }

    /// Removes every literal whose negation is in `literals`; true when one
    /// was removed.
    pub fn filter_negative_literals(&mut self, literals: &Vec<KnowledgeBaseLiteral>) -> (changed: bool)
        ensures
            final(self)@ == old(self)@.filter(unrefuted(literals@.to_set())),
            changed == (final(self)@.len() < old(self)@.len()),
            old(self).wf() ==> final(self).wf(),
    {
        let ghost pred = unrefuted(literals@.to_set());
        let mut kept: Vec<KnowledgeBaseLiteral> = Vec::new();
        let mut changed = false;
        let mut i: usize = 0;
        while i < self.set.len()
            invariant
                i <= self@.len(),
                self@ == old(self)@,
                pred == unrefuted(literals@.to_set()),
                kept@ == self@.take(i as int).filter(pred),
                changed == (kept@.len() < i),
                kept@.len() <= i,
            decreases self@.len() - i,
        {
            proof {
                self@.take(i as int).lemma_filter_push(self@[i as int], pred);
                assert(self@.take(i + 1) =~= self@.take(i as int).push(self@[i as int]));
            }
            let negated = self.set[i].negated();
            let mut found = false;
            let mut j: usize = 0;
            while j < literals.len()
                invariant
                    j <= literals@.len(),
                    found <==> exists|m: int| 0 <= m < j && literals@[m] == negated,
                decreases literals@.len() - j,
            {
                if literals[j] == negated {
                    found = true;
                }
                j = j + 1;
            }
            assert(found <==> literals@.to_set().contains(negation(self@[i as int])));
            assert(negated == negation(self@[i as int]));
            assert(pred(self@[i as int]) == !literals@.to_set().contains(negation(self@[i as int])));
            assert(pred(self@[i as int]) == !found);
            if !found {
                kept.push(self.set[i]);
            } else {
                changed = true;
            }
            i = i + 1;
        }
        assert(self@.take(i as int) =~= self@);
        proof {
            if self@.no_duplicates() {
                lemma_filter_keeps_no_duplicates(self@, pred);
            }
        }
        self.set = kept;
        changed
    }

    /// The single literal of a unit clause.
    pub fn is_unit(&self) -> (res: Option<&KnowledgeBaseLiteral>)
        ensures
            res is Some <==> self@.len() == 1,
            res matches Some(l) ==> *l == self@[0],
    {
        if self.set.len() != 1 {
            None
        } else {
            Some(&self.set[0])
        }
    }
}

impl PartialEq for KnowledgeBaseFact {
    fn eq(&self, other: &Self) -> (res: bool) {
        self.is_subset(other) && other.is_subset(self)
    }
}

impl vstd::std_specs::cmp::PartialEqSpecImpl for KnowledgeBaseFact {
    open spec fn obeys_eq_spec() -> bool {
        true
    }

    open spec fn eq_spec(&self, other: &Self) -> bool {
        same_clause(self@, other@)
    }
}

/// Filtering keeps a sequence free of repeats.
pub proof fn lemma_filter_keeps_no_duplicates(
    s: Seq<KnowledgeBaseLiteral>,
    pred: spec_fn(KnowledgeBaseLiteral) -> bool,
)
    requires
        s.no_duplicates(),
    ensures
        s.filter(pred).no_duplicates(),
        forall|l: KnowledgeBaseLiteral| #[trigger] s.filter(pred).contains(l) <==> s.contains(l) && pred(l),
    decreases s.len(),
{
    reveal(Seq::filter);
    if s.len() > 0 {
        let r = s.drop_last();
        assert forall|i: int, j: int| 0 <= i < j < r.len() implies r[i] != r[j] by {
            assert(r[i] == s[i] && r[j] == s[j]);
        }
        lemma_filter_keeps_no_duplicates(r, pred);
        assert forall|l: KnowledgeBaseLiteral| s.contains(l) implies r.contains(l) || l == s.last() by {
            let i = choose|i: int| 0 <= i < s.len() && s[i] == l;
            if i < s.len() - 1 {
                assert(r[i] == l);
            }
        }
        assert(!r.contains(s.last())) by {
            if r.contains(s.last()) {
                let i = choose|i: int| 0 <= i < r.len() && r[i] == s.last();
                assert(s[i] == s[s.len() - 1]);
            }
        }
        assert forall|l: KnowledgeBaseLiteral| r.contains(l) implies s.contains(l) by {
            let i = choose|i: int| 0 <= i < r.len() && r[i] == l;
            assert(s[i] == l);
        }
        assert(s.filter(pred) == if pred(s.last()) {
            r.filter(pred).push(s.last())
        } else {
            r.filter(pred)
        });
        if pred(s.last()) {
            let f = r.filter(pred);
            assert(!f.contains(s.last()));
            assert forall|i: int, j: int| 0 <= i < j < f.push(s.last()).len() implies f.push(s.last())[i]
                != f.push(s.last())[j] by {
                if j == f.len() {
                    assert(f[i] == f.push(s.last())[i]);
                }
            }
            assert forall|l: KnowledgeBaseLiteral| #[trigger] f.push(s.last()).contains(l) <==> f.contains(l)
                || l == s.last() by {
                if f.push(s.last()).contains(l) {
                    let i = choose|i: int| 0 <= i < f.len() + 1 && f.push(s.last())[i] == l;
                    if i < f.len() {
                        assert(f[i] == l);
                    }
                }
                if f.contains(l) {
                    let i = choose|i: int| 0 <= i < f.len() && f[i] == l;
                    assert(f.push(s.last())[i] == l);
                }
                if l == s.last() {
                    assert(f.push(s.last())[f.len() as int] == l);
                }
            }
        }
    }
}

/// The literal sequences of facts.
pub open spec fn fact_views(facts: Seq<KnowledgeBaseFact>) -> Seq<Seq<KnowledgeBaseLiteral>> {
    facts.map_values(|f: KnowledgeBaseFact| f@)
}

/// Whether some fact of `out` has the same literals as `fact`.
fn contains_equal(out: &Vec<KnowledgeBaseFact>, fact: &KnowledgeBaseFact) -> (res: bool)
    ensures
        res == contains_same(fact_views(out@), fact@),
{
    let mut k: usize = 0;
    while k < out.len()
        invariant
            k <= out@.len(),
            forall|j: int| 0 <= j < k ==> !same_clause(#[trigger] fact_views(out@)[j], fact@),
        decreases out@.len() - k,
    {
        if out[k] == *fact {
            assert(same_clause(fact_views(out@)[k as int], fact@));
            return true;
        }
        k = k + 1;
    }
    false
}

/// Whether some fact of `facts` is a strict subset of `fact`.
fn has_strict_subset_exec(facts: &Vec<KnowledgeBaseFact>, fact: &KnowledgeBaseFact) -> (res: bool)
    ensures
        res == has_strict_subset(fact_views(facts@), fact@),
{
    let mut j: usize = 0;
    while j < facts.len()
        invariant
            j <= facts@.len(),
            forall|m: int|
                0 <= m < j ==> !(#[trigger] clause_subset(fact_views(facts@)[m], fact@) && !clause_subset(
                    fact@,
                    fact_views(facts@)[m],
                )),
        decreases facts@.len() - j,
    {
        let fact_b = &facts[j];
        if fact_b.is_subset(fact) && !fact.is_subset(fact_b) {
            assert(clause_subset(fact_views(facts@)[j as int], fact@));
            return true;
        }
        j = j + 1;
    }
    false
}

/// The knowledge base: a conjunction of clauses. The empty one is a
/// tautology.
#[derive(Debug)]
pub struct KnowledgeBase {
    facts: Vec<KnowledgeBaseFact>,
}

impl View for KnowledgeBase {
    type V = Seq<Seq<KnowledgeBaseLiteral>>;

    closed spec fn view(&self) -> Seq<Seq<KnowledgeBaseLiteral>> {
        fact_views(self.facts@)
    }
}

impl KnowledgeBase {
    /// No clause holds a literal twice.
    pub open spec fn wf(&self) -> bool {
        clauses_wf(self@)
    }

    /// The empty knowledge base, which always holds.
    pub fn tautology() -> (kb: Self)
        ensures
            kb@ == Seq::<Seq<KnowledgeBaseLiteral>>::empty(),
            kb.wf(),
    {
        let kb = Self { facts: Vec::new() };
        assert(kb@ =~= Seq::<Seq<KnowledgeBaseLiteral>>::empty());
        kb
    }

    fn facts(&self) -> (res: &Vec<KnowledgeBaseFact>)
        ensures
            fact_views(res@) == self@,
    {
        &self.facts
    }

    /// The knowledge base of a formula: negations are pushed down, ORs
    /// distributed over ANDs, and the clauses read off the result.
    pub fn from_expression(expression: Expression) -> (kb: Self)
        requires
            expression@.spec_pushdown_not_recursive().negations_on_variables(),
        ensures
            kb@ == node_facts(expression@.spec_cnf_tree()),
            kb.wf(),
    {
        KnoweldgeBaseBuilder::from_expression(expression)
    }

    /// Adds the clauses of `other` after this one's.
    pub fn combine(&mut self, other: KnowledgeBase)
        ensures
            final(self)@ == old(self)@ + other@,
            old(self).wf() && other.wf() ==> final(self).wf(),
    {
        let mut other = other;
        let ghost other_view = other@;
        self.facts.append(&mut other.facts);
        assert(self@ =~= old(self)@ + other_view);
    }

    fn push_fact(&mut self, fact: KnowledgeBaseFact)
        ensures
            final(self)@ == old(self)@.push(fact@),
            old(self).wf() && fact.wf() ==> final(self).wf(),
    {
        self.facts.push(fact);
        assert(self@ =~= old(self)@.push(fact@));
    }

    /// Simplifies the knowledge base, round after round until a round
    /// changes nothing. A round drops tautologies (`[x, !x]`), clauses with
    /// the same literals as an earlier one (`[x], [x]` becomes `[x]`) and
    /// clauses with a strict subset among the clauses (`[y], [!x, y]`
    /// becomes `[y]`); then, from every kept clause, it removes the literals
    /// whose negation is a kept unit clause (`[x], [!x, y]` becomes
    /// `[x], [y]`).
    pub fn simplify(&mut self)
        requires
            old(self).wf(),
        ensures
            final(self).wf(),
            final(self)@ == spec_simplify(old(self)@),
    {
        let mut run_again = true;
        while run_again
            invariant
                self.wf(),
                run_again ==> spec_simplify(self@) == spec_simplify(old(self)@),
                !run_again ==> self@ == spec_simplify(old(self)@),
            decreases simplify_measure(self@) + (if run_again {
                1nat
            } else {
                0nat
            }),
        {
            run_again = false;
            let ghost before = self@;
            let mut out: Vec<KnowledgeBaseFact> = Vec::new();
            let mut units: Vec<KnowledgeBaseLiteral> = Vec::new();
            let mut i: usize = 0;
            // remove supersets, duplicates and tautologies
            while i < self.facts.len()
                invariant
                    i <= self.facts@.len(),
                    self@ == before,
                    self.wf(),
                    fact_views(out@) == kept_prefix(before, i as int),
                    clauses_wf(fact_views(out@)),
                    units@.to_set() == unit_literals(kept_prefix(before, i as int)),
                    run_again == (kept_prefix(before, i as int).len() < i),
                    kept_prefix(before, i as int).len() <= i,
                decreases self.facts@.len() - i,
            {
                let fact_a = &self.facts[i];
                assert(fact_a@ == before[i as int]);
                if contains_equal(&out, fact_a) || fact_a.tautology() {
                    run_again = true;
                    i = i + 1;
                    continue;
                }
                if !has_strict_subset_exec(&self.facts, fact_a) {
                    let ghost out_before = fact_views(out@);
                    let ghost units_before = units@;
                    if let Some(literal) = fact_a.is_unit() {
                        units.push(*literal);
                    }
                    out.push(fact_a.clone());
                    proof {
                        let new_out = fact_views(out@);
                        let a = before[i as int];
                        assert(new_out =~= out_before.push(a));
                        assert forall|l: KnowledgeBaseLiteral| #[trigger] units@.to_set().contains(l)
                            == (units_before.to_set().contains(l) || (a.len() == 1 && a[0] == l)) by {
                            if a.len() == 1 {
                                assert(units@ == units_before.push(a[0]));
                                if units@.contains(l) {
                                    let m = choose|m: int| 0 <= m < units@.len() && units@[m] == l;
                                    if m < units_before.len() {
                                        assert(units_before[m] == l);
                                    }
                                }
                                if units_before.contains(l) {
                                    let m = choose|m: int| 0 <= m < units_before.len() && units_before[m] == l;
                                    assert(units@[m] == l);
                                }
                                if a[0] == l {
                                    assert(units@[units_before.len() as int] == l);
                                }
                            }
                        }
                        assert forall|l: KnowledgeBaseLiteral| #[trigger] unit_literals(new_out).contains(l)
                            == (unit_literals(out_before).contains(l) || (a.len() == 1 && a[0] == l)) by {
                            if unit_literals(new_out).contains(l) {
                                let k = choose|k: int|
                                    #![trigger new_out[k]]
                                    0 <= k < new_out.len() && new_out[k].len() == 1 && new_out[k][0] == l;
                                if k < out_before.len() {
                                    assert(out_before[k] == new_out[k]);
                                    assert(unit_literals(out_before).contains(l));
                                }
                            }
                            if unit_literals(out_before).contains(l) {
                                let k = choose|k: int|
                                    #![trigger out_before[k]]
                                    0 <= k < out_before.len() && out_before[k].len() == 1 && out_before[k][0]
                                        == l;
                                assert(new_out[k] == out_before[k]);
                            }
                            if a.len() == 1 && a[0] == l {
                                assert(new_out[out_before.len() as int] == a);
                            }
                        }
                        assert(units@.to_set() =~= unit_literals(new_out));
                    }
                } else {
                    run_again = true;
                }
                i = i + 1;
            }
            let ghost kept = kept_facts(before);
            assert(kept == kept_prefix(before, i as int));
            // remove the literals whose negation is a unit clause
            let mut new_facts: Vec<KnowledgeBaseFact> = Vec::new();
            let ghost skipped = run_again;
            let mut k: usize = 0;
            while k < out.len()
                invariant
                    k <= out@.len(),
                    fact_views(out@) == kept,
                    clauses_wf(kept),
                    units@.to_set() == unit_literals(kept),
                    fact_views(new_facts@) == propagate_units(kept).take(k as int),
                    clauses_wf(fact_views(new_facts@)),
                    run_again == (skipped || exists|j: int|
                        0 <= j < k && #[trigger] propagate_units(kept)[j].len() < kept[j].len()),
                decreases out@.len() - k,
            {
                let mut fact = out[k].clone();
                assert(fact@ == kept[k as int]);
                let ghost new_before = fact_views(new_facts@);
                if fact.filter_negative_literals(&units) {
                    run_again = true;
                }
                assert(fact@ == propagate_units(kept)[k as int]);
                new_facts.push(fact);
                assert(fact_views(new_facts@) =~= new_before.push(fact@));
                assert(fact_views(new_facts@) =~= propagate_units(kept).take(k + 1));
                k = k + 1;
            }
            self.facts = new_facts;
            proof {
                assert(self@ =~= simplify_round(before));
                assert(run_again == round_changes(before));
                lemma_round_measure(before);
            }
        }
    }

    /// The knowledge base written out with the names in `vars`: one clause
    /// per line, as `[a, !b]`.
    pub fn display(&self, vars: &VariableNames) -> (out: String)
        requires
            kb_vars_within(self@, var_set(vars@)),
        ensures
            out@ == kb_text(self@, vars@, self@.len() as int),
    {
        let mut out: String = String::new();
        let facts = self.facts();
        let mut k: usize = 0;
        while k < facts.len()
            invariant
                k <= facts@.len(),
                fact_views(facts@) == self@,
                kb_vars_within(self@, var_set(vars@)),
                out@ == kb_text(self@, vars@, k as int),
            decreases facts@.len() - k,
        {
            let fact = &facts[k];
            let ghost start = out@;
            assert(fact@ == self@[k as int]);
            out.append("[");
            let literals = fact.literals();
            let mut i: usize = 0;
            while i < literals.len()
                invariant
                    i <= literals@.len(),
                    literals@ == self@[k as int],
                    k < self@.len(),
                    kb_vars_within(self@, var_set(vars@)),
                    out@ == start + "["@ + literals_text(literals@, vars@, i as int),
                decreases literals@.len() - i,
            {
                let literal = &literals[i];
                proof {
                    assert(var_set(vars@).contains(self@[k as int][i as int].var));
                    lemma_lookup_var_some(vars@, literal.var);
                }
                let var_name = vars.get_name_from_variable(literal.var()).unwrap();
                let ghost before = out@;
                if literal.not() {
                    out.append("!");
                }
                out.append(var_name.as_str());
                if i != literals.len().saturating_sub(1) {
                    out.append(", ");
                }
                assert(out@ =~= before + literal_text(*literal, vars@) + (if i != literals@.len() - 1 {
                    ", "@
                } else {
                    Seq::empty()
                }));
                i = i + 1;
            }
            out.append("]\n");
            assert(out@ =~= kb_text(self@, vars@, k as int) + fact_text(self@[k as int], vars@));
            k = k + 1;
        }
        out
    }
}

/// Where the builder stands: inside a clause (with its literals so far) or
/// not.
enum KnowledgeBaseFactBuilder {
    Fact(Vec<KnowledgeBaseLiteral>),
    NoFact,
}

/// Reads the clauses off a formula in conjunctive normal form.
struct KnoweldgeBaseBuilder {
    state: KnowledgeBaseFactBuilder,
    base: KnowledgeBase,
}

impl KnoweldgeBaseBuilder {
    spec fn wf(&self) -> bool {
        &&& self.base.wf()
        &&& (self.state matches KnowledgeBaseFactBuilder::Fact(fact) ==> fact@.no_duplicates())
    }

    fn from_expression(expression: Expression) -> (kb: KnowledgeBase)
        requires
            expression@.spec_pushdown_not_recursive().negations_on_variables(),
        ensures
            kb@ == node_facts(expression@.spec_cnf_tree()),
            kb.wf(),
    {
        let cnf_node = expression.node_owned().pushdown_not_recursive().distribute_or_recursive();
        proof {
            lemma_distribute_keeps_negations_on_variables(expression@.spec_pushdown_not_recursive());
        }
        let mut builder = Self {
            state: KnowledgeBaseFactBuilder::NoFact,
            base: KnowledgeBase::tautology(),
        };
        builder.from_expression_recursive(cnf_node);
        assert(builder.base@ =~= node_facts(expression@.spec_cnf_tree()));
        builder.base
    }

    fn from_expression_recursive(&mut self, expr: Box<ExpressionNode>)
        requires
            old(self).wf(),
            expr.negations_on_variables(),
        ensures
            final(self).wf(),
            match old(self).state {
                KnowledgeBaseFactBuilder::NoFact => {
                    &&& final(self).state is NoFact
                    &&& final(self).base@ == old(self).base@ + node_facts(*expr)
                },
                KnowledgeBaseFactBuilder::Fact(fact) => {
                    &&& final(self).state matches KnowledgeBaseFactBuilder::Fact(f) && f@ == insert_all(
                        fact@,
                        node_literals(*expr),
                    )
                    &&& final(self).base@ == old(self).base@
                },
            },
        decreases expr,
    {
        proof {
            lemma_insert_all_singleton(*expr);
        }
        match *expr {
            ExpressionNode::And(a, b) => {
                self.from_expression_recursive(a);
                self.from_expression_recursive(b);
                proof {
                    if let KnowledgeBaseFactBuilder::Fact(fact) = old(self).state {
                        lemma_insert_all_concat(fact@, node_literals(*a), node_literals(*b));
                    } else {
                        assert(self.base@ =~= old(self).base@ + node_facts(*expr));
                    }
                }
            },
            ExpressionNode::Or(a, b) => {
                let already_in_fact = matches!(self.state, KnowledgeBaseFactBuilder::Fact(_));
                if !already_in_fact {
                    self.state = KnowledgeBaseFactBuilder::Fact(Vec::new());
                }
                let ghost fact0 = match &self.state {
                    KnowledgeBaseFactBuilder::Fact(f) => f@,
                    KnowledgeBaseFactBuilder::NoFact => Seq::empty(),
                };
                self.from_expression_recursive(a);
                self.from_expression_recursive(b);
                proof {
                    lemma_insert_all_concat(fact0, node_literals(*a), node_literals(*b));
                }
                if !already_in_fact {
                    let mut state = KnowledgeBaseFactBuilder::NoFact;
                    std::mem::swap(&mut state, &mut self.state);
                    match state {
                        KnowledgeBaseFactBuilder::Fact(fact) => {
                            self.base.push_fact(KnowledgeBaseFact::new(fact));
                        },
                        KnowledgeBaseFactBuilder::NoFact => {},
                    }
                }
            },
            ExpressionNode::Variable(variable) => {
                let new_fact = KnowledgeBaseLiteral::new(false, variable);
                let mut state = KnowledgeBaseFactBuilder::NoFact;
                std::mem::swap(&mut state, &mut self.state);
                match state {
                    KnowledgeBaseFactBuilder::Fact(mut fact) => {
                        insert_literal_exec(&mut fact, new_fact);
                        self.state = KnowledgeBaseFactBuilder::Fact(fact);
                    },
                    KnowledgeBaseFactBuilder::NoFact => {
                        let mut fact = Vec::new();
                        insert_literal_exec(&mut fact, new_fact);
                        self.base.push_fact(KnowledgeBaseFact::new(fact));
                    },
                }
            },
            ExpressionNode::Not(a) => {
                // negations stand only in front of variables here
                if let ExpressionNode::Variable(variable) = *a {
                    let new_fact = KnowledgeBaseLiteral::new(true, variable);
                    let mut state = KnowledgeBaseFactBuilder::NoFact;
                    std::mem::swap(&mut state, &mut self.state);
                    match state {
                        KnowledgeBaseFactBuilder::Fact(mut fact) => {
                            insert_literal_exec(&mut fact, new_fact);
                            self.state = KnowledgeBaseFactBuilder::Fact(fact);
                        },
                        KnowledgeBaseFactBuilder::NoFact => {
                            let mut fact = Vec::new();
                            insert_literal_exec(&mut fact, new_fact);
                            self.base.push_fact(KnowledgeBaseFact::new(fact));
                        },
                    }
                }
            },
        }
    }
}

/// Adding literals one after another keeps a clause free of repeats, and
/// adds exactly them.
pub proof fn lemma_insert_all(fact: Seq<KnowledgeBaseLiteral>, ls: Seq<KnowledgeBaseLiteral>)
    requires
        fact.no_duplicates(),
    ensures
        insert_all(fact, ls).no_duplicates(),
        forall|l: KnowledgeBaseLiteral| #[trigger] insert_all(fact, ls).contains(l) <==> fact.contains(l)
            || ls.contains(l),
    decreases ls.len(),
{
    if ls.len() > 0 {
        let prev = insert_all(fact, ls.drop_last());
        lemma_insert_all(fact, ls.drop_last());
        assert forall|l: KnowledgeBaseLiteral| ls.contains(l) <==> ls.drop_last().contains(l) || l
            == ls.last() by {
            if ls.contains(l) {
                let i = choose|i: int| 0 <= i < ls.len() && ls[i] == l;
                if i < ls.len() - 1 {
                    assert(ls.drop_last()[i] == l);
                }
            }
            if ls.drop_last().contains(l) {
                let i = choose|i: int| 0 <= i < ls.drop_last().len() && ls.drop_last()[i] == l;
                assert(ls[i] == l);
            }
        }
        if !prev.contains(ls.last()) {
            let r = prev.push(ls.last());
            assert forall|l: KnowledgeBaseLiteral| #[trigger] r.contains(l) <==> prev.contains(l) || l
                == ls.last() by {
                if l == ls.last() {
                    assert(r[prev.len() as int] == l);
                }
                if r.contains(l) {
                    let i = choose|i: int| 0 <= i < r.len() && r[i] == l;
                    if i < prev.len() {
                        assert(prev[i] == l);
                    }
                }
                if prev.contains(l) {
                    let i = choose|i: int| 0 <= i < prev.len() && prev[i] == l;
                    assert(r[i] == l);
                }
            }
        }
    }
}

/// Adding `a` then `b` adds `a + b`.
pub proof fn lemma_insert_all_concat(
    fact: Seq<KnowledgeBaseLiteral>,
    a: Seq<KnowledgeBaseLiteral>,
    b: Seq<KnowledgeBaseLiteral>,
)
    ensures
        insert_all(insert_all(fact, a), b) == insert_all(fact, a + b),
    decreases b.len(),
{
    if b.len() == 0 {
        assert(a + b =~= a);
    } else {
        lemma_insert_all_concat(fact, a, b.drop_last());
        assert((a + b).drop_last() =~= a + b.drop_last());
        assert((a + b).last() == b.last());
    }
}

/// Adding the literals of a variable or negated variable adds one literal.
proof fn lemma_insert_all_singleton(n: ExpressionNode)
    ensures
        forall|fact: Seq<KnowledgeBaseLiteral>|
            n.is_literal() ==> #[trigger] insert_all(fact, node_literals(n)) == insert_literal(
                fact,
                node_literals(n)[0],
            ),
        n.is_literal() ==> node_literals(n).len() == 1,
{
    if n.is_literal() {
        let ls = node_literals(n);
        assert(ls.len() == 1);
        assert(ls.drop_last() =~= Seq::<KnowledgeBaseLiteral>::empty());
        assert forall|fact: Seq<KnowledgeBaseLiteral>| #[trigger] insert_all(fact, ls) == insert_literal(
            fact,
            ls[0],
        ) by {
            assert(insert_all(fact, ls.drop_last()) == fact);
        }
    }
}

/// The literals of a formula have its variables.
proof fn lemma_node_literals_vars(n: ExpressionNode, vars: Set<Variable>)
    requires
        n.vars_within(vars),
    ensures
        forall|i: int| 0 <= i < node_literals(n).len() ==> vars.contains(#[trigger] node_literals(n)[i].var),
    decreases n,
{
    match n {
        ExpressionNode::And(a, b) => {
            lemma_node_literals_vars(*a, vars);
            lemma_node_literals_vars(*b, vars);
            assert forall|i: int| 0 <= i < node_literals(n).len() implies vars.contains(
                #[trigger] node_literals(n)[i].var,
            ) by {
                if i < node_literals(*a).len() {
                    assert(node_literals(n)[i] == node_literals(*a)[i]);
                } else {
                    assert(node_literals(n)[i] == node_literals(*b)[i - node_literals(*a).len()]);
                }
            }
        },
        ExpressionNode::Or(a, b) => {
            lemma_node_literals_vars(*a, vars);
            lemma_node_literals_vars(*b, vars);
            assert forall|i: int| 0 <= i < node_literals(n).len() implies vars.contains(
                #[trigger] node_literals(n)[i].var,
            ) by {
                if i < node_literals(*a).len() {
                    assert(node_literals(n)[i] == node_literals(*a)[i]);
                } else {
                    assert(node_literals(n)[i] == node_literals(*b)[i - node_literals(*a).len()]);
                }
            }
        },
        ExpressionNode::Not(a) => {
            reveal_with_fuel(ExpressionNode::vars_within, 2);
        },
        ExpressionNode::Variable(_) => {},
    }
}

/// The clauses read from a formula have its variables.
pub proof fn lemma_node_facts_vars(n: ExpressionNode, vars: Set<Variable>)
    requires
        n.vars_within(vars),
    ensures
        kb_vars_within(node_facts(n), vars),
    decreases n,
{
    match n {
        ExpressionNode::And(a, b) => {
            lemma_node_facts_vars(*a, vars);
            lemma_node_facts_vars(*b, vars);
            let fa = node_facts(*a);
            assert forall|k: int, i: int|
                0 <= k < node_facts(n).len() && 0 <= i < node_facts(n)[k].len() implies vars.contains(
                #[trigger] node_facts(n)[k][i].var) by {
                if k < fa.len() {
                    assert(node_facts(n)[k] == fa[k]);
                } else {
                    assert(node_facts(n)[k] == node_facts(*b)[k - fa.len()]);
                }
            }
        },
        _ => {
            let ls = node_literals(n);
            lemma_node_literals_vars(n, vars);
            lemma_insert_all(Seq::empty(), ls);
            let c = insert_all(Seq::empty(), ls);
            assert forall|i: int| 0 <= i < c.len() implies vars.contains(#[trigger] c[i].var) by {
                assert(c.contains(c[i]));
                assert(ls.contains(c[i]));
                let m = choose|m: int| 0 <= m < ls.len() && ls[m] == c[i];
                assert(vars.contains(ls[m].var));
            }
            assert(node_facts(n)[0] == c);
        },
    }
}

/// A clause of two parts holds when one of the parts holds.
proof fn lemma_clause_holds_concat(a: Seq<KnowledgeBaseLiteral>, b: Seq<KnowledgeBaseLiteral>, env: spec_fn(Variable) -> bool)
    ensures
        clause_holds(a + b, env) == (clause_holds(a, env) || clause_holds(b, env)),
{
    let c = a + b;
    if clause_holds(c, env) {
        let i = choose|i: int| 0 <= i < c.len() && #[trigger] literal_holds(c[i], env);
        if i < a.len() {
            assert(literal_holds(a[i], env));
        } else {
            assert(literal_holds(b[i - a.len()], env));
        }
    }
    if clause_holds(a, env) {
        let i = choose|i: int| 0 <= i < a.len() && #[trigger] literal_holds(a[i], env);
        assert(literal_holds(c[i], env));
    }
    if clause_holds(b, env) {
        let i = choose|i: int| 0 <= i < b.len() && #[trigger] literal_holds(b[i], env);
        assert(literal_holds(c[i + a.len()], env));
    }
}

/// A clause holds when some literal it contains holds, whatever the order
/// or repetition of its literals.
proof fn lemma_clause_holds_same_literals(a: Seq<KnowledgeBaseLiteral>, b: Seq<KnowledgeBaseLiteral>, env: spec_fn(Variable) -> bool)
    requires
        forall|l: KnowledgeBaseLiteral| a.contains(l) <==> b.contains(l),
    ensures
        clause_holds(a, env) == clause_holds(b, env),
{
    if clause_holds(a, env) {
        let i = choose|i: int| 0 <= i < a.len() && #[trigger] literal_holds(a[i], env);
        assert(a.contains(a[i]));
        let m = choose|m: int| 0 <= m < b.len() && b[m] == a[i];
        assert(literal_holds(b[m], env));
    }
    if clause_holds(b, env) {
        let i = choose|i: int| 0 <= i < b.len() && #[trigger] literal_holds(b[i], env);
        assert(b.contains(b[i]));
        let m = choose|m: int| 0 <= m < a.len() && a[m] == b[i];
        assert(literal_holds(a[m], env));
    }
}

/// The literals of a clause-shaped formula hold together exactly as the
/// formula does.
proof fn lemma_node_literals_hold(n: ExpressionNode, env: spec_fn(Variable) -> bool)
    requires
        n.is_clause(),
    ensures
        clause_holds(node_literals(n), env) == n.eval(env),
    decreases n,
{
    match n {
        ExpressionNode::Or(a, b) => {
            lemma_node_literals_hold(*a, env);
            lemma_node_literals_hold(*b, env);
            lemma_clause_holds_concat(node_literals(*a), node_literals(*b), env);
        },
        ExpressionNode::Not(a) => {
            if let ExpressionNode::Variable(v) = *a {
                let l = KnowledgeBaseLiteral { not: true, var: v };
                assert(node_literals(n) == seq![l]);
                if clause_holds(node_literals(n), env) {
                    let i = choose|i: int| 0 <= i < 1 && #[trigger] literal_holds(node_literals(n)[i], env);
                }
                assert(literal_holds(node_literals(n)[0], env) == n.eval(env)) by {
                    reveal_with_fuel(ExpressionNode::eval, 2);
                }
            }
        },
        ExpressionNode::Variable(v) => {
            if clause_holds(node_literals(n), env) {
                let i = choose|i: int| 0 <= i < 1 && #[trigger] literal_holds(node_literals(n)[i], env);
            }
            assert(literal_holds(node_literals(n)[0], env) == n.eval(env));
        },
        ExpressionNode::And(_, _) => {},
    }
}

/// Adding knowledge bases: the result holds exactly where both hold.
pub proof fn law_combine_holds(
    a: Seq<Seq<KnowledgeBaseLiteral>>,
    b: Seq<Seq<KnowledgeBaseLiteral>>,
    env: spec_fn(Variable) -> bool,
)
    ensures
        kb_holds(a + b, env) == (kb_holds(a, env) && kb_holds(b, env)),
{
    let c = a + b;
    if kb_holds(c, env) {
        assert forall|k: int| 0 <= k < a.len() implies #[trigger] clause_holds(a[k], env) by {
            assert(c[k] == a[k]);
        }
        assert forall|k: int| 0 <= k < b.len() implies #[trigger] clause_holds(b[k], env) by {
            assert(c[k + a.len()] == b[k]);
        }
    }
    if kb_holds(a, env) && kb_holds(b, env) {
        assert forall|k: int| 0 <= k < c.len() implies #[trigger] clause_holds(c[k], env) by {
            if k < a.len() {
                assert(c[k] == a[k]);
            } else {
                assert(c[k] == b[k - a.len()]);
            }
        }
    }
}

/// The empty knowledge base always holds; the empty clause never does.
pub proof fn law_empty_is_tautology_and_empty_fact_contradiction(env: spec_fn(Variable) -> bool)
    ensures
        kb_holds(Seq::empty(), env),
        !clause_holds(Seq::empty(), env),
{
}

/// The clauses read from a formula in conjunctive normal form hold exactly
/// where the formula holds.
pub proof fn law_cnf_facts_mean_formula(n: ExpressionNode, env: spec_fn(Variable) -> bool)
    requires
        n.is_cnf(),
    ensures
        kb_holds(node_facts(n), env) == n.eval(env),
    decreases n,
{
    match n {
        ExpressionNode::And(a, b) => {
            law_cnf_facts_mean_formula(*a, env);
            law_cnf_facts_mean_formula(*b, env);
            law_combine_holds(node_facts(*a), node_facts(*b), env);
        },
        _ => {
            let ls = node_literals(n);
            lemma_insert_all(Seq::empty(), ls);
            let c = insert_all(Seq::empty(), ls);
            assert forall|l: KnowledgeBaseLiteral| c.contains(l) <==> ls.contains(l) by {}
            lemma_clause_holds_same_literals(c, ls, env);
            lemma_node_literals_hold(n, env);
            assert(node_facts(n) == seq![c]);
            if kb_holds(node_facts(n), env) {
                assert(clause_holds(node_facts(n)[0], env));
            }
        },
    }
}

/// The knowledge base of a formula holds exactly where the formula holds,
/// when the tree it is read from is in conjunctive normal form.
pub proof fn law_knowledge_base_means_formula(e: ExpressionNode, env: spec_fn(Variable) -> bool)
    requires
        e.spec_cnf_tree().is_cnf(),
    ensures
        kb_holds(node_facts(e.spec_cnf_tree()), env) == e.eval(env),
{
    law_cnf_facts_mean_formula(e.spec_cnf_tree(), env);
    crate::expression::law_cnf_tree_keeps_meaning(e, env);
}

} // verus!
