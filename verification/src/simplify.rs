use vstd::prelude::*;

use vstd::seq_lib::seq_to_set_is_finite;

use crate::knowledge_base::{
    KnowledgeBaseLiteral,
    clause_subset,
    same_clause,
    is_tautology,
    unrefuted,
    negation,
    literal_holds,
    clause_holds,
    kb_holds,
    kb_vars_within,
};
use crate::variable::Variable;

verus! {

/// A clause: literals of which one must hold.
pub type Clause = Seq<KnowledgeBaseLiteral>;

/// A knowledge base as a sequence of clauses.
pub type Clauses = Seq<Clause>;

/// Some clause of `out` has the same literals as `a`.
pub open spec fn contains_same(out: Clauses, a: Clause) -> bool {
    exists|k: int| 0 <= k < out.len() && #[trigger] same_clause(out[k], a)
}

/// Some clause of `facts` has fewer literals than `a`, all of them in `a`.
pub open spec fn has_strict_subset(facts: Clauses, a: Clause) -> bool {
    exists|j: int| 0 <= j < facts.len() && #[trigger] clause_subset(facts[j], a) && !clause_subset(a, facts[j])
}

/// The clauses among the first `i` that a simplification round keeps, in
/// order: a clause is dropped when an earlier kept clause has the same
/// literals, when it is a tautology, or when another clause is a strict
/// subset of it.
pub open spec fn kept_prefix(facts: Clauses, i: int) -> Clauses
    decreases i,
{
    if i <= 0 {
        Seq::empty()
    } else {
        let out = kept_prefix(facts, i - 1);
        let a = facts[i - 1];
        if contains_same(out, a) || is_tautology(a) || has_strict_subset(facts, a) {
            out
        } else {
            out.push(a)
        }
    }
}

/// The clauses that a simplification round keeps.
pub open spec fn kept_facts(facts: Clauses) -> Clauses {
    kept_prefix(facts, facts.len() as int)
}

/// The literals of the unit clauses of `out`.
pub open spec fn unit_literals(out: Clauses) -> Set<KnowledgeBaseLiteral> {
    Set::new(
        |l: KnowledgeBaseLiteral|
            exists|k: int| #![trigger out[k]] 0 <= k < out.len() && out[k].len() == 1 && out[k][0] == l,
    )
}

/// Unit propagation: from every clause, the literals whose negation is a
/// unit clause are removed.
pub open spec fn propagate_units(out: Clauses) -> Clauses {
    out.map_values(|c: Clause| c.filter(unrefuted(unit_literals(out))))
}

/// One round of simplification.
pub open spec fn simplify_round(facts: Clauses) -> Clauses {
    propagate_units(kept_facts(facts))
}

/// Whether a round removes a clause or a literal.
pub open spec fn round_changes(facts: Clauses) -> bool {
    ||| kept_facts(facts).len() < facts.len()
    ||| exists|k: int|
        0 <= k < kept_facts(facts).len() && #[trigger] propagate_units(kept_facts(facts))[k].len()
            < kept_facts(facts)[k].len()
}

/// The number of literals in all clauses.
pub open spec fn total_len(facts: Clauses) -> nat
    decreases facts.len(),
{
    if facts.len() == 0 {
        0
    } else {
        total_len(facts.drop_last()) + facts.last().len()
    }
}

/// Clauses plus literals: what a changing round makes smaller.
pub open spec fn simplify_measure(facts: Clauses) -> nat {
    facts.len() + total_len(facts)
}

/// Simplification: rounds are repeated until one changes nothing; the
/// result is what that last round gave.
pub open spec fn spec_simplify(facts: Clauses) -> Clauses
    decreases simplify_measure(facts),
{
    if round_changes(facts) {
        proof {
            lemma_round_measure(facts);
        }
        spec_simplify(simplify_round(facts))
    } else {
        simplify_round(facts)
    }
}

proof fn lemma_total_len_push(facts: Clauses, c: Clause)
    ensures
        total_len(facts.push(c)) == total_len(facts) + c.len(),
{
    assert(facts.push(c).drop_last() =~= facts);
}

/// The kept clauses are no more than the clauses, and no longer in all.
proof fn lemma_kept_prefix_measure(facts: Clauses, i: int)
    requires
        0 <= i <= facts.len(),
    ensures
        kept_prefix(facts, i).len() <= i,
        total_len(kept_prefix(facts, i)) <= total_len(facts.take(i)),
    decreases i,
{
    if i > 0 {
        lemma_kept_prefix_measure(facts, i - 1);
        assert(facts.take(i).drop_last() =~= facts.take(i - 1));
        lemma_total_len_push(kept_prefix(facts, i - 1), facts[i - 1]);
    }
}

/// Shortening some clauses shortens the total.
proof fn lemma_total_len_pointwise(a: Clauses, b: Clauses)
    requires
        a.len() == b.len(),
        forall|k: int| 0 <= k < a.len() ==> #[trigger] a[k].len() <= b[k].len(),
    ensures
        total_len(a) <= total_len(b),
        (exists|k: int| 0 <= k < a.len() && #[trigger] a[k].len() < b[k].len()) ==> total_len(a)
            < total_len(b),
    decreases a.len(),
{
    if a.len() > 0 {
        lemma_total_len_pointwise(a.drop_last(), b.drop_last());
        if exists|k: int| 0 <= k < a.len() && #[trigger] a[k].len() < b[k].len() {
            let k = choose|k: int| 0 <= k < a.len() && #[trigger] a[k].len() < b[k].len();
            if k < a.len() - 1 {
                assert(a.drop_last()[k].len() < b.drop_last()[k].len());
            }
        }
    }
}

/// A round never makes the measure larger, and a changing round makes it
/// smaller.
pub proof fn lemma_round_measure(facts: Clauses)
    ensures
        simplify_measure(simplify_round(facts)) <= simplify_measure(facts),
        round_changes(facts) ==> simplify_measure(simplify_round(facts)) < simplify_measure(facts),
{
    let kept = kept_facts(facts);
    let prop = propagate_units(kept);
    lemma_kept_prefix_measure(facts, facts.len() as int);
    assert(facts.take(facts.len() as int) =~= facts);
    assert forall|k: int| 0 <= k < prop.len() implies #[trigger] prop[k].len() <= kept[k].len() by {
        kept[k].lemma_filter_len(unrefuted(unit_literals(kept)));
    }
    lemma_total_len_pointwise(prop, kept);
}

/// The clauses kept among the first `i` stay, in place, among the clauses
/// kept among the first `j`.
proof fn lemma_kept_prefix_grows(facts: Clauses, i: int, j: int)
    requires
        0 <= i <= j <= facts.len(),
    ensures
        kept_prefix(facts, i).len() <= kept_prefix(facts, j).len(),
        forall|k: int|
            0 <= k < kept_prefix(facts, i).len() ==> #[trigger] kept_prefix(facts, j)[k] == kept_prefix(
                facts,
                i,
            )[k],
    decreases j - i,
{
    if i < j {
        lemma_kept_prefix_grows(facts, i, j - 1);
    }
}

/// Every kept clause is one of the clauses.
proof fn lemma_kept_from_facts(facts: Clauses, i: int)
    requires
        0 <= i <= facts.len(),
    ensures
        forall|k: int|
            0 <= k < kept_prefix(facts, i).len() ==> exists|j: int|
                0 <= j < i && facts[j] == #[trigger] kept_prefix(facts, i)[k],
    decreases i,
{
    if i > 0 {
        lemma_kept_from_facts(facts, i - 1);
        let out = kept_prefix(facts, i - 1);
        assert forall|k: int| 0 <= k < kept_prefix(facts, i).len() implies exists|j: int|
            0 <= j < i && facts[j] == #[trigger] kept_prefix(facts, i)[k] by {
            if k < out.len() {
                assert(kept_prefix(facts, i)[k] == out[k]);
                let j = choose|j: int| 0 <= j < i - 1 && facts[j] == out[k];
            } else {
                assert(kept_prefix(facts, i)[k] == facts[i - 1]);
            }
        }
    }
}

proof fn lemma_clause_subset_refl(c: Clause)
    ensures
        clause_subset(c, c),
{
    assert forall|i: int| 0 <= i < c.len() implies c.contains(#[trigger] c[i]) by {
        assert(c[i] == c[i]);
    }
}

/// A clause that a round drops is a tautology, has a strict subset among
/// the clauses, or has the same literals as a kept clause.
proof fn lemma_dropped_reason(facts: Clauses, j: int)
    requires
        0 <= j < facts.len(),
    ensures
        is_tautology(facts[j]) || has_strict_subset(facts, facts[j]) || contains_same(
            kept_facts(facts),
            facts[j],
        ),
{
    let out = kept_prefix(facts, j);
    let kept = kept_facts(facts);
    lemma_kept_prefix_grows(facts, j, facts.len() as int);
    lemma_kept_prefix_grows(facts, j + 1, facts.len() as int);
    if contains_same(out, facts[j]) {
        let k = choose|k: int| 0 <= k < out.len() && #[trigger] same_clause(out[k], facts[j]);
        assert(kept[k] == out[k]);
        assert(same_clause(kept[k], facts[j]));
    } else if !is_tautology(facts[j]) && !has_strict_subset(facts, facts[j]) {
        assert(kept_prefix(facts, j + 1) == out.push(facts[j]));
        assert(kept[out.len() as int] == kept_prefix(facts, j + 1)[out.len() as int]);
        lemma_clause_subset_refl(facts[j]);
        assert(same_clause(kept[out.len() as int], facts[j]));
    }
}

/// A tautology always holds.
proof fn lemma_tautology_holds(c: Clause, env: spec_fn(Variable) -> bool)
    requires
        is_tautology(c),
    ensures
        clause_holds(c, env),
{
    let i = choose|i: int| 0 <= i < c.len() && c.contains(negation(#[trigger] c[i]));
    let m = choose|m: int| 0 <= m < c.len() && c[m] == negation(c[i]);
    if !literal_holds(c[i], env) {
        assert(literal_holds(c[m], env));
    }
}

/// A clause holds where a clause of some of its literals holds.
proof fn lemma_subset_holds(a: Clause, b: Clause, env: spec_fn(Variable) -> bool)
    requires
        clause_subset(a, b),
        clause_holds(a, env),
    ensures
        clause_holds(b, env),
{
    let i = choose|i: int| 0 <= i < a.len() && #[trigger] literal_holds(a[i], env);
    assert(b.contains(a[i]));
    let m = choose|m: int| 0 <= m < b.len() && b[m] == a[i];
    assert(literal_holds(b[m], env));
}

/// A strict subset has fewer distinct literals.
proof fn lemma_strict_subset_smaller(a: Clause, b: Clause)
    requires
        clause_subset(b, a),
        !clause_subset(a, b),
    ensures
        b.to_set().len() < a.to_set().len(),
{
    seq_to_set_is_finite(a);
    let i = choose|i: int| 0 <= i < a.len() && !b.contains(#[trigger] a[i]);
    assert forall|x: KnowledgeBaseLiteral| b.to_set().contains(x) implies a.to_set().contains(x) by {
        let m = choose|m: int| 0 <= m < b.len() && b[m] == x;
        assert(a.contains(b[m]));
    }
    assert(a.to_set().contains(a[i]));
    b.to_set().lemma_subset_not_in_lt(a.to_set(), a[i]);
}

/// Where the kept clauses hold, every clause holds.
proof fn lemma_clause_holds_from_kept(facts: Clauses, env: spec_fn(Variable) -> bool, j: int)
    requires
        0 <= j < facts.len(),
        kb_holds(kept_facts(facts), env),
    ensures
        clause_holds(facts[j], env),
    decreases facts[j].to_set().len(),
{
    let kept = kept_facts(facts);
    lemma_dropped_reason(facts, j);
    if is_tautology(facts[j]) {
        lemma_tautology_holds(facts[j], env);
    } else if contains_same(kept, facts[j]) {
        let k = choose|k: int| 0 <= k < kept.len() && #[trigger] same_clause(kept[k], facts[j]);
        assert(clause_holds(kept[k], env));
        lemma_subset_holds(kept[k], facts[j], env);
    } else {
        let m = choose|m: int|
            0 <= m < facts.len() && #[trigger] clause_subset(facts[m], facts[j]) && !clause_subset(
                facts[j],
                facts[m],
            );
        lemma_strict_subset_smaller(facts[j], facts[m]);
        lemma_clause_holds_from_kept(facts, env, m);
        lemma_subset_holds(facts[m], facts[j], env);
    }
}

/// The kept clauses hold exactly where all clauses hold.
proof fn lemma_kept_holds(facts: Clauses, env: spec_fn(Variable) -> bool)
    ensures
        kb_holds(kept_facts(facts), env) == kb_holds(facts, env),
{
    let kept = kept_facts(facts);
    if kb_holds(facts, env) {
        lemma_kept_from_facts(facts, facts.len() as int);
        assert forall|k: int| 0 <= k < kept.len() implies #[trigger] clause_holds(kept[k], env) by {
            let j = choose|j: int| 0 <= j < facts.len() && facts[j] == kept[k];
            assert(clause_holds(facts[j], env));
        }
    }
    if kb_holds(kept, env) {
        assert forall|j: int| 0 <= j < facts.len() implies #[trigger] clause_holds(facts[j], env) by {
            lemma_clause_holds_from_kept(facts, env, j);
        }
    }
}

/// Unit propagation keeps the meaning of a knowledge base.
proof fn lemma_propagate_holds(out: Clauses, env: spec_fn(Variable) -> bool)
    ensures
        kb_holds(propagate_units(out), env) == kb_holds(out, env),
{
    let units = unit_literals(out);
    let pred = unrefuted(units);
    let prop = propagate_units(out);
    if kb_holds(out, env) {
        assert forall|k: int| 0 <= k < prop.len() implies #[trigger] clause_holds(prop[k], env) by {
            let c = out[k];
            assert(clause_holds(c, env));
            let i = choose|i: int| 0 <= i < c.len() && #[trigger] literal_holds(c[i], env);
            if units.contains(negation(c[i])) {
                let u = choose|u: int|
                    #![trigger out[u]]
                    0 <= u < out.len() && out[u].len() == 1 && out[u][0] == negation(c[i]);
                assert(clause_holds(out[u], env));
                let w = choose|w: int| 0 <= w < out[u].len() && #[trigger] literal_holds(out[u][w], env);
                assert(w == 0);
                assert(false);
            }
            assert(pred(c[i]));
            c.lemma_filter_contains(pred, i);
            assert(prop[k] == c.filter(pred));
            let m = choose|m: int| 0 <= m < prop[k].len() && prop[k][m] == c[i];
            assert(literal_holds(prop[k][m], env));
        }
    }
    if kb_holds(prop, env) {
        assert forall|k: int| 0 <= k < out.len() implies #[trigger] clause_holds(out[k], env) by {
            let c = out[k];
            assert(prop[k] == c.filter(pred));
            assert(clause_holds(prop[k], env));
            let i = choose|i: int| 0 <= i < prop[k].len() && #[trigger] literal_holds(prop[k][i], env);
            assert(prop[k].contains(prop[k][i]));
            c.lemma_filter_contains_rev(pred, prop[k][i]);
            let m = choose|m: int| 0 <= m < c.len() && c[m] == prop[k][i];
            assert(literal_holds(c[m], env));
        }
    }
}

/// One simplification round keeps the meaning of a knowledge base.
pub proof fn law_simplify_round_keeps_meaning(facts: Clauses, env: spec_fn(Variable) -> bool)
    ensures
        kb_holds(simplify_round(facts), env) == kb_holds(facts, env),
{
    lemma_kept_holds(facts, env);
    lemma_propagate_holds(kept_facts(facts), env);
}

/// Simplification does not change the meaning of a knowledge base: the
/// simplified one holds under exactly the valuations under which the
/// given one holds.
pub proof fn law_simplify_keeps_meaning(facts: Clauses, env: spec_fn(Variable) -> bool)
    ensures
        kb_holds(spec_simplify(facts), env) == kb_holds(facts, env),
    decreases simplify_measure(facts),
{
    law_simplify_round_keeps_meaning(facts, env);
    if round_changes(facts) {
        lemma_round_measure(facts);
        law_simplify_keeps_meaning(simplify_round(facts), env);
    }
}

/// A round brings in no new variable.
proof fn lemma_round_keeps_vars(facts: Clauses, vars: Set<Variable>)
    requires
        kb_vars_within(facts, vars),
    ensures
        kb_vars_within(simplify_round(facts), vars),
{
    let kept = kept_facts(facts);
    let prop = propagate_units(kept);
    lemma_kept_from_facts(facts, facts.len() as int);
    assert forall|k: int, i: int| 0 <= k < prop.len() && 0 <= i < prop[k].len() implies vars.contains(
        #[trigger] prop[k][i].var) by {
        let pred = unrefuted(unit_literals(kept));
        assert(prop[k] == kept[k].filter(pred));
        assert(prop[k].contains(prop[k][i]));
        kept[k].lemma_filter_contains_rev(pred, prop[k][i]);
        let m = choose|m: int| 0 <= m < kept[k].len() && kept[k][m] == prop[k][i];
        let j = choose|j: int| 0 <= j < facts.len() && facts[j] == kept[k];
        assert(vars.contains(facts[j][m].var));
    }
}

/// Simplification brings in no new variable.
pub proof fn lemma_simplify_keeps_vars(facts: Clauses, vars: Set<Variable>)
    requires
        kb_vars_within(facts, vars),
    ensures
        kb_vars_within(spec_simplify(facts), vars),
    decreases simplify_measure(facts),
{
    lemma_round_keeps_vars(facts, vars);
    if round_changes(facts) {
        lemma_round_measure(facts);
        lemma_simplify_keeps_vars(simplify_round(facts), vars);
    }
}

/// A filter that keeps as many elements as there are keeps all of them.
proof fn lemma_filter_full(s: Clause, pred: spec_fn(KnowledgeBaseLiteral) -> bool)
    requires
        s.filter(pred).len() == s.len(),
    ensures
        s.filter(pred) == s,
        forall|i: int| 0 <= i < s.len() ==> pred(#[trigger] s[i]),
    decreases s.len(),
{
    reveal(Seq::filter);
    if s.len() > 0 {
        let r = s.drop_last();
        r.lemma_filter_len(pred);
        if !pred(s.last()) {
            assert(false);
        }
        lemma_filter_full(r, pred);
        assert(s.filter(pred) =~= s);
        assert forall|i: int| 0 <= i < s.len() implies pred(#[trigger] s[i]) by {
            if i < s.len() - 1 {
                assert(r[i] == s[i]);
            }
        }
    }
}

/// Where every clause among the first `i` is kept, the kept ones are they.
proof fn lemma_all_kept(facts: Clauses, i: int)
    requires
        0 <= i <= facts.len(),
        kept_prefix(facts, i).len() == i,
    ensures
        kept_prefix(facts, i) == facts.take(i),
        forall|j: int| 0 <= j < i ==> !contains_same(#[trigger] facts.take(j), facts[j]),
        forall|j: int| 0 <= j < i ==> !is_tautology(#[trigger] facts[j]),
        forall|j: int| 0 <= j < i ==> !has_strict_subset(facts, #[trigger] facts[j]),
    decreases i,
{
    if i > 0 {
        lemma_kept_prefix_measure(facts, i - 1);
        lemma_all_kept(facts, i - 1);
        assert(facts.take(i) =~= facts.take(i - 1).push(facts[i - 1]));
    }
}

/// A round that changes nothing gives back its input, whose clauses are
/// then all kept and keep all their literals.
proof fn lemma_quiet_round(facts: Clauses)
    requires
        !round_changes(facts),
    ensures
        kept_facts(facts) == facts,
        simplify_round(facts) == facts,
        forall|j: int| 0 <= j < facts.len() ==> !contains_same(#[trigger] facts.take(j), facts[j]),
        forall|j: int| 0 <= j < facts.len() ==> !is_tautology(#[trigger] facts[j]),
        forall|j: int| 0 <= j < facts.len() ==> !has_strict_subset(facts, #[trigger] facts[j]),
        forall|k: int, m: int|
            0 <= k < facts.len() && 0 <= m < facts[k].len() ==> !unit_literals(facts).contains(
                negation(#[trigger] facts[k][m]),
            ),
{
    lemma_kept_prefix_measure(facts, facts.len() as int);
    lemma_all_kept(facts, facts.len() as int);
    assert(facts.take(facts.len() as int) =~= facts);
    let kept = kept_facts(facts);
    let pred = unrefuted(unit_literals(kept));
    let prop = propagate_units(kept);
    assert forall|k: int| 0 <= k < kept.len() implies #[trigger] prop[k] == kept[k] by {
        kept[k].lemma_filter_len(pred);
        assert(prop[k].len() == kept[k].len());
        lemma_filter_full(kept[k], pred);
    }
    assert(prop =~= kept);
    assert forall|k: int, m: int|
        0 <= k < facts.len() && 0 <= m < facts[k].len() implies !unit_literals(facts).contains(
        negation(#[trigger] facts[k][m]),
    ) by {
        kept[k].lemma_filter_len(pred);
        lemma_filter_full(kept[k], pred);
        assert(pred(kept[k][m]));
    }
}

/// What simplification gives is a round that changes nothing.
proof fn lemma_simplified_is_quiet(facts: Clauses)
    ensures
        !round_changes(spec_simplify(facts)),
        simplify_round(spec_simplify(facts)) == spec_simplify(facts),
    decreases simplify_measure(facts),
{
    if round_changes(facts) {
        lemma_round_measure(facts);
        lemma_simplified_is_quiet(simplify_round(facts));
    } else {
        lemma_quiet_round(facts);
    }
}

/// Simplifying again changes nothing: a simplified knowledge base is its
/// own simplification.
pub proof fn law_simplify_is_idempotent(facts: Clauses)
    ensures
        spec_simplify(spec_simplify(facts)) == spec_simplify(facts),
{
    lemma_simplified_is_quiet(facts);
}

/// In a simplified knowledge base no clause is a tautology, no clause has
/// the same literals as an earlier one, no clause has another as a strict
/// subset, and no literal has its negation as a unit clause.
pub proof fn law_simplified_is_reduced(facts: Clauses)
    ensures
        forall|i: int|
            0 <= i < spec_simplify(facts).len() ==> !is_tautology(#[trigger] spec_simplify(facts)[i]),
        forall|i: int, j: int|
            0 <= i < j < spec_simplify(facts).len() ==> !same_clause(
                #[trigger] spec_simplify(facts)[i],
                #[trigger] spec_simplify(facts)[j],
            ),
        forall|i: int, j: int|
            0 <= i < spec_simplify(facts).len() && 0 <= j < spec_simplify(facts).len() ==> !(
            clause_subset(#[trigger] spec_simplify(facts)[j], #[trigger] spec_simplify(facts)[i])
                && !clause_subset(spec_simplify(facts)[i], spec_simplify(facts)[j])),
        forall|k: int, m: int|
            0 <= k < spec_simplify(facts).len() && 0 <= m < spec_simplify(facts)[k].len()
                ==> !unit_literals(spec_simplify(facts)).contains(
                negation(#[trigger] spec_simplify(facts)[k][m]),
            ),
{
    let r = spec_simplify(facts);
    lemma_simplified_is_quiet(facts);
    lemma_quiet_round(r);
    assert forall|i: int, j: int| 0 <= i < j < r.len() implies !same_clause(
        #[trigger] r[i],
        #[trigger] r[j],
    ) by {
        assert(!contains_same(r.take(j), r[j]));
        assert(r.take(j)[i] == r[i]);
        if same_clause(r[i], r[j]) {
            assert(same_clause(r.take(j)[i], r[j]));
        }
    }
    assert forall|i: int, j: int| 0 <= i < r.len() && 0 <= j < r.len() implies !(clause_subset(
        #[trigger] r[j],
        #[trigger] r[i],
    ) && !clause_subset(r[i], r[j])) by {
        assert(!has_strict_subset(r, r[i]));
    }
}

} // verus!
