use vstd::prelude::*;

use crate::announcement::{classes_hold, equivalence_classes_of, EquivalenceClassModel};
use crate::automaton::{
    fresh_goal, fresh_goals, occurs_in, occurs_somewhere, arities_consistent, all_variables, argument_obligations, derivative_of, goal_completed, goal_discarded, goal_reduced, goal_unchanged,
    head_is, obligations_sorted_from, reduce_obligation, reduced_goal, reduced_obligations, symbol_term,
    unchanged_goal, ObligationModel,
};
use crate::data::{data_arguments, data_function_symbol, is_data_application, is_data_variable, is_supported, symbol_occurs};
use crate::goal_shape::{
    data_position, symbols_from, arities_bounded, goal_in_shape, goals_in_shape, lemma_pattern_arguments_bounded, lemma_reduced_obligations,
};
use crate::match_goal::{same_goal_set, GoalModel};
use crate::rewrite_specification::RuleModel;
use crate::semi_compressed_tree::{
    instantiate, is_ground, lemma_variables_bound, lemma_variables_in_arg, sctt_of, var_map_sound, variables_bound, variables_in,
    Sctt,
};
use crate::term::{is_position, lemma_subterm_push, replace_at, subterm_at, well_sized, Term};

verus! {

/// The pattern matches the term when repeated variables are not compared:
/// every function symbol of the pattern stands at the same place in the
/// term, applied to as many arguments.
pub open spec fn matches_linearly(p: Term, t: Term) -> bool
    decreases p,
{
    if p.variable {
        true
    } else {
        &&& data_function_symbol(t) == data_function_symbol(p)
        &&& data_arguments(t).len() == data_arguments(p).len()
        &&& is_data_application(p) ==> forall|i: int|
            1 <= i < p.args.len() ==> matches_linearly(#[trigger] p.args[i], t.args[i])
    }
}

/// The pattern matches the subterm of `u` at `pos`.
pub open spec fn matches_at(p: Term, u: Term, pos: Seq<usize>) -> bool {
    subterm_at(u, pos) is Some && matches_linearly(p, subterm_at(u, pos)->0)
}

/// Reading `u` proves the goal once its obligations hold: when the pattern
/// of every obligation matches the subterm of `u` at its position, the left
/// hand side of its rule matches the subterm at the position of its
/// announcement.
pub open spec fn goal_sound(g: GoalModel, u: Term) -> bool {
    (forall|j: int| 0 <= j < g.obligations.len() ==> matches_at(#[trigger] g.obligations[j].pattern, u, g.obligations[j].position))
        ==> matches_at(g.announcement.rule.lhs, u, g.announcement.position)
}

/// Every goal is sound for `u`.
pub open spec fn goals_sound(gs: Seq<GoalModel>, u: Term) -> bool {
    forall|k: int| 0 <= k < gs.len() ==> goal_sound(#[trigger] gs[k], u)
}

/// The obligations for the arguments hold the argument with index `i` (from
/// 0) at `label.(i + 2)` when it is not a variable.
proof fn lemma_argument_obligation_at(args: Seq<Term>, label: Seq<usize>, i: int)
    requires
        0 <= i < args.len(),
        !is_data_variable(args[i]),
    ensures
        argument_obligations(args, label).contains(
            ObligationModel { pattern: args[i], position: label.push((i + 2) as usize) },
        ),
    decreases args.len(),
{
    let rest = argument_obligations(args.drop_last(), label);
    if i < args.len() - 1 {
        lemma_argument_obligation_at(args.drop_last(), label, i);
        let o = ObligationModel { pattern: args[i], position: label.push((i + 2) as usize) };
        assert(args.drop_last()[i] == args[i]);
        let j = choose|j: int| 0 <= j < rest.len() && rest[j] == o;
        assert(argument_obligations(args, label)[j] == o);
    } else {
        assert(args.last() == args[i]);
        assert(argument_obligations(args, label).last() == ObligationModel {
            pattern: args[i],
            position: label.push((i + 2) as usize),
        });
    }
}

/// The reduced obligations hold the reduction of every obligation.
proof fn lemma_reduced_contains(os: Seq<ObligationModel>, label: Seq<usize>, f: usize, i: int, o: ObligationModel)
    requires
        0 <= i < os.len(),
        reduce_obligation(os[i], label, f).contains(o),
    ensures
        reduced_obligations(os, label, f).contains(o),
    decreases os.len(),
{
    let rest = reduced_obligations(os.drop_last(), label, f);
    let last = reduce_obligation(os.last(), label, f);
    assert(reduced_obligations(os, label, f) == rest + last);
    if i < os.len() - 1 {
        assert(os.drop_last()[i] == os[i]);
        lemma_reduced_contains(os.drop_last(), label, f, i, o);
        let j = choose|j: int| 0 <= j < rest.len() && rest[j] == o;
        assert((rest + last)[j] == o);
    } else {
        let j = choose|j: int| 0 <= j < last.len() && last[j] == o;
        assert((rest + last)[rest.len() + j] == o);
    }
}

/// A pattern with head `f` matches a subterm with head `f` and as many
/// arguments when each argument that is not a variable matches the subterm
/// below it.
proof fn lemma_matches_from_arguments(p: Term, u: Term, label: Seq<usize>, f: usize)
    requires
        head_is(p, f),
        data_arguments(p).len() < usize::MAX,
        subterm_at(u, label) is Some,
        data_function_symbol(subterm_at(u, label)->0) == symbol_term(f),
        data_arguments(subterm_at(u, label)->0).len() == data_arguments(p).len(),
        forall|i: int|
            0 <= i < data_arguments(p).len() && !is_data_variable(#[trigger] data_arguments(p)[i]) ==> matches_at(
                data_arguments(p)[i],
                u,
                label.push((i + 2) as usize),
            ),
    ensures
        matches_at(p, u, label),
{
    let s = subterm_at(u, label)->0;
    assert(!p.variable);
    if is_data_application(p) {
        assert forall|i: int| 1 <= i < p.args.len() implies matches_linearly(#[trigger] p.args[i], s.args[i]) by {
            let a = i - 1;
            assert(data_arguments(p)[a] == p.args[i]);
            assert(data_arguments(s).len() > 0);
            assert(is_data_application(s));
            assert(data_arguments(s)[a] == s.args[i]);
            if !is_data_variable(p.args[i]) {
                lemma_subterm_push(u, label, s, (a + 2) as usize);
                assert(subterm_at(u, label.push((a + 2) as usize)) == Some(s.args[i]));
            } else {
                assert(p.args[i].variable);
            }
        }
    }
}

/// Reading `f` at `label` in `u` keeps the goals that are kept or reduced
/// sound, and proves the left hand side of every completed goal, when the
/// subterm at the label has head `f` with as many arguments as the patterns
/// read there.
pub proof fn lemma_derivative_sound(gs: Seq<GoalModel>, label: Seq<usize>, f: usize, u: Term, ts: Seq<Term>)
    requires
        goals_sound(gs, u),
        goals_in_shape(gs, ts),
        arities_bounded(ts),
        subterm_at(u, label) is Some,
        data_function_symbol(subterm_at(u, label)->0) == symbol_term(f),
        forall|k: int, j: int|
            0 <= k < gs.len() && 0 <= j < gs[k].obligations.len() && (#[trigger] gs[k].obligations[j]).position
                == label && head_is(gs[k].obligations[j].pattern, f) ==> data_arguments(
                gs[k].obligations[j].pattern,
            ).len() == data_arguments(subterm_at(u, label)->0).len(),
    ensures
        goals_sound(derivative_of(gs, label, f).1, u),
        goals_sound(derivative_of(gs, label, f).2, u),
        forall|k: int|
            0 <= k < derivative_of(gs, label, f).0.len() ==> matches_at(
                (#[trigger] derivative_of(gs, label, f).0[k]).announcement.rule.lhs,
                u,
                derivative_of(gs, label, f).0[k].announcement.position,
            ),
    decreases gs.len(),
{
    if gs.len() > 0 {
        let rest = gs.drop_last();
        let g = gs.last();
        let last = gs.len() - 1;
        assert(gs[last] == g);
        assert(goals_in_shape(rest, ts)) by {
            assert forall|k: int| 0 <= k < rest.len() implies goal_in_shape(#[trigger] rest[k], ts) by {
                assert(rest[k] == gs[k]);
            }
        }
        assert(goals_sound(rest, u)) by {
            assert forall|k: int| 0 <= k < rest.len() implies goal_sound(#[trigger] rest[k], u) by {
                assert(rest[k] == gs[k]);
            }
        }
        assert forall|k: int, j: int|
            0 <= k < rest.len() && 0 <= j < rest[k].obligations.len() && (#[trigger] rest[k].obligations[j]).position
                == label && head_is(rest[k].obligations[j].pattern, f) implies data_arguments(
            rest[k].obligations[j].pattern,
        ).len() == data_arguments(subterm_at(u, label)->0).len() by {
            assert(rest[k] == gs[k]);
        }
        lemma_derivative_sound(rest, label, f, u, ts);
        let d = derivative_of(gs, label, f);
        let r = derivative_of(rest, label, f);
        assert(goal_sound(g, u));
        let os = g.obligations;
        if goal_completed(g, label, f) {
            assert forall|k: int| 0 <= k < d.0.len() implies matches_at(
                (#[trigger] d.0[k]).announcement.rule.lhs,
                u,
                d.0[k].announcement.position,
            ) by {
                if k < r.0.len() {
                    assert(d.0[k] == r.0[k]);
                } else {
                    assert(d.0[k] == g);
                    let p = os[0].pattern;
                    assert(gs[last].obligations[0] == os[0]);
                    assert(goal_in_shape(gs[last], ts));
                    lemma_pattern_arguments_bounded(p, ts);
                    assert forall|i: int|
                        0 <= i < data_arguments(p).len() && !is_data_variable(#[trigger] data_arguments(p)[i]) implies matches_at(
                        data_arguments(p)[i],
                        u,
                        label.push((i + 2) as usize),
                    ) by {
                        assert(all_variables(data_arguments(p)));
                    }
                    lemma_matches_from_arguments(p, u, label, f);
                    assert forall|j: int| 0 <= j < os.len() implies matches_at(
                        #[trigger] os[j].pattern,
                        u,
                        os[j].position,
                    ) by {
                        assert(j == 0);
                    }
                }
            }
            assert(d.1 == r.1 && d.2 == r.2);
        } else if goal_discarded(g, label, f) {
            assert(d == r);
        } else if goal_unchanged(g, label) {
            assert forall|k: int| 0 <= k < d.1.len() implies goal_sound(#[trigger] d.1[k], u) by {
                if k < r.1.len() {
                    assert(d.1[k] == r.1[k]);
                } else {
                    assert(d.1[k] == unchanged_goal(g));
                    let h = unchanged_goal(g);
                    assert(h.obligations == g.obligations);
                    assert(h.announcement.rule == g.announcement.rule);
                    assert(h.announcement.position == g.announcement.position);
                    if forall|j: int| 0 <= j < h.obligations.len() ==> matches_at(#[trigger] h.obligations[j].pattern, u, h.obligations[j].position) {
                        assert forall|j: int| 0 <= j < g.obligations.len() implies matches_at(#[trigger] g.obligations[j].pattern, u, g.obligations[j].position) by {
                            assert(h.obligations[j] == g.obligations[j]);
                        }
                    }
                }
            }
            assert(d.0 == r.0 && d.2 == r.2);
        } else {
            assert(goal_reduced(g, label, f));
            assert forall|k: int| 0 <= k < d.2.len() implies goal_sound(#[trigger] d.2[k], u) by {
                if k < r.2.len() {
                    assert(d.2[k] == r.2[k]);
                } else {
                    let h = reduced_goal(g, label, f);
                    assert(d.2[k] == h);
                    let ro = h.obligations;
                    assert(ro == reduced_obligations(os, label, f));
                    assert(goal_in_shape(gs[last], ts));
                    assert forall|i: int| 0 <= i < os.len() implies data_arguments((#[trigger] os[i]).pattern).len()
                        < usize::MAX by {
                        lemma_pattern_arguments_bounded(os[i].pattern, ts);
                    }
                    lemma_reduced_obligations(os, label, f);
                    if forall|j: int| 0 <= j < ro.len() ==> matches_at(#[trigger] ro[j].pattern, u, ro[j].position) {
                        assert forall|i: int| 0 <= i < os.len() implies matches_at(
                            #[trigger] os[i].pattern,
                            u,
                            os[i].position,
                        ) by {
                            if head_is(os[i].pattern, f) && os[i].position == label {
                                let p = os[i].pattern;
                                assert(gs[last].obligations[i] == os[i]);
                                assert forall|a: int|
                                    0 <= a < data_arguments(p).len() && !is_data_variable(
                                        #[trigger] data_arguments(p)[a],
                                    ) implies matches_at(data_arguments(p)[a], u, label.push((a + 2) as usize)) by {
                                    let o = ObligationModel {
                                        pattern: data_arguments(p)[a],
                                        position: label.push((a + 2) as usize),
                                    };
                                    lemma_argument_obligation_at(data_arguments(p), label, a);
                                    assert(reduce_obligation(os[i], label, f) == argument_obligations(
                                        data_arguments(p),
                                        label,
                                    ));
                                    lemma_reduced_contains(os, label, f, i, o);
                                    let j = choose|j: int| 0 <= j < ro.len() && ro[j] == o;
                                    assert(matches_at(ro[j].pattern, u, ro[j].position));
                                }
                                lemma_matches_from_arguments(p, u, label, f);
                            } else {
                                assert(ro.contains(os[i]));
                                let j = choose|j: int| 0 <= j < ro.len() && ro[j] == os[i];
                                assert(matches_at(ro[j].pattern, u, ro[j].position));
                            }
                        }
                    }
                }
            }
            assert(d.0 == r.0 && d.1 == r.1);
        }
    }
}

/// Sorting the obligations of sound goals keeps them sound.
pub proof fn lemma_sorted_sound(a: Seq<GoalModel>, b: Seq<GoalModel>, u: Term)
    requires
        goals_sound(a, u),
        obligations_sorted_from(a, b),
    ensures
        goals_sound(b, u),
{
    broadcast use vstd::seq_lib::group_to_multiset_ensures;

    assert forall|k: int| 0 <= k < b.len() implies goal_sound(#[trigger] b[k], u) by {
        let x = a[k].obligations;
        let y = b[k].obligations;
        x.to_multiset_ensures();
        y.to_multiset_ensures();
        assert(goal_sound(a[k], u));
        if forall|j: int| 0 <= j < y.len() ==> matches_at(#[trigger] y[j].pattern, u, y[j].position) {
            assert forall|i: int| 0 <= i < x.len() implies matches_at(#[trigger] x[i].pattern, u, x[i].position) by {
                assert(x.contains(x[i]));
                assert(x.to_multiset().count(x[i]) > 0);
                assert(y.to_multiset().count(x[i]) > 0);
                assert(y.contains(x[i]));
                let j = choose|j: int| 0 <= j < y.len() && y[j] == x[i];
                assert(matches_at(y[j].pattern, u, y[j].position));
            }
        }
    }
}

/// Goals with the same members are sound together.
pub proof fn lemma_same_set_sound(a: Seq<GoalModel>, b: Seq<GoalModel>, u: Term)
    requires
        goals_sound(a, u),
        same_goal_set(a, b),
    ensures
        goals_sound(b, u),
{
    assert forall|k: int| 0 <= k < b.len() implies goal_sound(#[trigger] b[k], u) by {
        assert(b.contains(b[k]));
        assert(a.contains(b[k]));
        let i = choose|i: int| 0 <= i < a.len() && a[i] == b[k];
    }
}

/// The fresh goals at the root are sound for every term.
pub proof fn lemma_fresh_root_sound(rs: Seq<RuleModel>, u: Term)
    ensures
        goals_sound(fresh_goals(rs, Seq::empty()), u),
{
    let gs = fresh_goals(rs, Seq::empty());
    assert forall|k: int| 0 <= k < gs.len() implies goal_sound(#[trigger] gs[k], u) by {
        assert(gs[k] == fresh_goal(rs[k], Seq::empty()));
        if forall|j: int| 0 <= j < gs[k].obligations.len() ==> matches_at(#[trigger] gs[k].obligations[j].pattern, u, gs[k].obligations[j].position) {
            assert(matches_at(gs[k].obligations[0].pattern, u, gs[k].obligations[0].position));
        }
    }
}

/// Every function symbol of `t` that occurs in the terms `ts` is applied in
/// `t` to as many arguments as in `ts`.
pub open spec fn symbols_agree(t: Term, ts: Seq<Term>) -> bool {
    forall|f: usize, n: nat| #[trigger] symbol_occurs(t, f, n) && occurs_somewhere(ts, f) ==> occurs_in(ts, f, n)
}

/// The symbols of a subterm at a data position are symbols of the term.
pub proof fn lemma_symbol_occurs_below(t: Term, p: Seq<usize>, f: usize, n: nat)
    requires
        data_position(p),
        subterm_at(t, p) is Some,
        symbol_occurs(subterm_at(t, p)->0, f, n),
    ensures
        symbol_occurs(t, f, n),
    decreases p.len(),
{
    if p.len() > 0 {
        let c = p[0];
        assert(c >= 2);
        assert(data_position(p.drop_first())) by {
            assert forall|i: int| 0 <= i < p.drop_first().len() implies #[trigger] p.drop_first()[i] >= 2 by {
                assert(p.drop_first()[i] == p[i + 1]);
            }
        }
        lemma_symbol_occurs_below(t.args[c - 1], p.drop_first(), f, n);
        assert(t.args.len() > 0);
        assert(1 <= c - 1 < t.args.len() && symbol_occurs(t.args[c - 1], f, n));
    }
}

/// A term with head `f` has `f` applied to its data arguments.
pub proof fn lemma_head_occurs(t: Term, f: usize)
    requires
        data_function_symbol(t) == symbol_term(f),
        is_data_application(t) || t.args.len() == 0,
    ensures
        symbol_occurs(t, f, data_arguments(t).len()),
{
}

/// The subterms of a supported term at data positions are supported.
pub proof fn lemma_supported_below(t: Term, p: Seq<usize>)
    requires
        is_supported(t),
        data_position(p),
        subterm_at(t, p) is Some,
    ensures
        is_supported(subterm_at(t, p)->0),
    decreases p.len(),
{
    if p.len() > 0 {
        let c = p[0];
        assert(c >= 2);
        assert(data_position(p.drop_first())) by {
            assert forall|i: int| 0 <= i < p.drop_first().len() implies #[trigger] p.drop_first()[i] >= 2 by {
                assert(p.drop_first()[i] == p[i + 1]);
            }
        }
        assert(is_supported(t.args[c - 1]));
        lemma_supported_below(t.args[c - 1], p.drop_first());
    }
}

/// In a term whose symbols agree with `ts`, the patterns of goals in shape
/// read at a label with head `f` have as many arguments as the subterm
/// there.
pub proof fn lemma_arities_agree(gs: Seq<GoalModel>, u: Term, label: Seq<usize>, f: usize, ts: Seq<Term>)
    requires
        goals_in_shape(gs, ts),
        symbols_agree(u, ts),
        arities_consistent(ts),
        is_supported(u),
        data_position(label),
        subterm_at(u, label) is Some,
        data_function_symbol(subterm_at(u, label)->0) == symbol_term(f),
    ensures
        forall|k: int, j: int|
            0 <= k < gs.len() && 0 <= j < gs[k].obligations.len() && (#[trigger] gs[k].obligations[j]).position
                == label && head_is(gs[k].obligations[j].pattern, f) ==> data_arguments(
                gs[k].obligations[j].pattern,
            ).len() == data_arguments(subterm_at(u, label)->0).len(),
{
    let s = subterm_at(u, label)->0;
    lemma_supported_below(u, label);
    lemma_head_occurs(s, f);
    lemma_symbol_occurs_below(u, label, f, data_arguments(s).len());
    assert forall|k: int, j: int|
        0 <= k < gs.len() && 0 <= j < gs[k].obligations.len() && (#[trigger] gs[k].obligations[j]).position == label
            && head_is(gs[k].obligations[j].pattern, f) implies data_arguments(gs[k].obligations[j].pattern).len()
        == data_arguments(s).len() by {
        let p = gs[k].obligations[j].pattern;
        assert(goal_in_shape(gs[k], ts));
        assert(symbols_from(p, ts));
        lemma_head_occurs(p, f);
        assert(occurs_in(ts, f, data_arguments(p).len()));
        assert(occurs_somewhere(ts, f));
        assert(occurs_in(ts, f, data_arguments(s).len()));
    }
}

/// The rule applies to `u`: its left hand side matches `u`, and all
/// positions of one variable of the left hand side hold the same subterm
/// of `u`.
pub open spec fn rule_applies(r: RuleModel, u: Term) -> bool {
    &&& matches_linearly(r.lhs, u)
    &&& forall|p: Seq<usize>, q: Seq<usize>|
        #![trigger subterm_at(r.lhs, p), subterm_at(r.lhs, q)]
        subterm_at(r.lhs, p) is Some && subterm_at(r.lhs, p)->0.variable && subterm_at(r.lhs, p) == subterm_at(
            r.lhs,
            q,
        ) ==> subterm_at(u, p) == subterm_at(u, q)
}

/// The equivalence classes of a left hand side hold in `u` exactly when all
/// positions of one of its variables hold the same subterm of `u`: so the
/// rule applies once its left hand side matches.
pub proof fn lemma_classes_apply(r: RuleModel, u: Term, cs: Seq<EquivalenceClassModel>)
    requires
        equivalence_classes_of(r.lhs, cs),
        classes_hold(u, cs),
        matches_linearly(r.lhs, u),
    ensures
        rule_applies(r, u),
{
    assert forall|p: Seq<usize>, q: Seq<usize>|
        subterm_at(r.lhs, p) is Some && subterm_at(r.lhs, p)->0.variable && subterm_at(r.lhs, p) == subterm_at(
            r.lhs,
            q,
        ) implies subterm_at(u, p) == subterm_at(u, q) by {
        if p != q {
            let k = choose|k: int| 0 <= k < cs.len() && (#[trigger] cs[k]).positions.contains(p) && cs[k].positions.contains(q);
            let i = choose|i: int| 0 <= i < cs[k].positions.len() && cs[k].positions[i] == p;
            let j = choose|j: int| 0 <= j < cs[k].positions.len() && cs[k].positions[j] == q;
            assert(subterm_at(u, cs[k].positions[0]) == subterm_at(u, cs[k].positions[i]));
            assert(subterm_at(u, cs[k].positions[0]) == subterm_at(u, cs[k].positions[j]));
        }
    }
}

/// `rhs` is the compiled right hand side of a rule that applies to `u`,
/// compiled with a map from the variables of its left hand side to their
/// positions.
pub open spec fn applies_with(rules: Seq<RuleModel>, u: Term, rhs: Sctt) -> bool {
    exists|k: int, m: Map<usize, Seq<usize>>|
        #![trigger rules[k], sctt_of(rules[k].rhs, m)]
        0 <= k < rules.len() && rule_applies(rules[k], u) && var_map_sound(rules[k].lhs, m) && variables_in(
            rules[k].lhs,
            m.dom(),
        ) && rhs == sctt_of(rules[k].rhs, m)
}

/// The conditions of a rule, with a variable map of its left hand side, are
/// judged to hold for a term by `judge`.
pub type ConditionJudge = spec_fn(RuleModel, Map<usize, Seq<usize>>, Term) -> bool;

/// `s` is `t` with the subterm at some position (through data arguments)
/// rewritten by a rule that applies to it and whose conditions `judge` finds
/// to hold there: replaced by the right hand side of the rule, in which each
/// variable stands for the subterm at one of its positions in the left hand
/// side.
pub open spec fn rewrite_step(rules: Seq<RuleModel>, judge: ConditionJudge, t: Term, s: Term) -> bool {
    exists|k: int, p: Seq<usize>, m: Map<usize, Seq<usize>>|
        #![trigger rules[k], subterm_at(t, p), var_map_sound(rules[k].lhs, m)]
        0 <= k < rules.len() && data_position(p) && subterm_at(t, p) is Some && rule_applies(rules[k], subterm_at(t, p)->0)
            && var_map_sound(rules[k].lhs, m) && variables_in(rules[k].lhs, m.dom()) && judge(
            rules[k],
            m,
            subterm_at(t, p)->0,
        ) && s == replace_at(
            t,
            p,
            instantiate(rules[k].rhs, m, subterm_at(t, p)->0),
        )
}

/// Each term of the path rewrites to the next one in one step.
pub open spec fn is_derivation(rules: Seq<RuleModel>, judge: ConditionJudge, path: Seq<Term>) -> bool {
    &&& path.len() >= 1
    &&& forall|i: int| 0 <= i < path.len() - 1 ==> rewrite_step(rules, judge, #[trigger] path[i], path[i + 1])
}

/// `t` rewrites to `s` in zero or more steps.
pub open spec fn reaches(rules: Seq<RuleModel>, judge: ConditionJudge, t: Term, s: Term) -> bool {
    exists|path: Seq<Term>| #[trigger] is_derivation(rules, judge, path) && path[0] == t && path.last() == s
}

/// Every term reaches itself.
pub proof fn lemma_reaches_refl(rules: Seq<RuleModel>, judge: ConditionJudge, t: Term)
    ensures
        reaches(rules, judge, t, t),
{
    let path = seq![t];
    assert(is_derivation(rules, judge, path));
}

/// One step reaches.
pub proof fn lemma_reaches_step(rules: Seq<RuleModel>, judge: ConditionJudge, t: Term, s: Term)
    requires
        rewrite_step(rules, judge, t, s),
    ensures
        reaches(rules, judge, t, s),
{
    let path = seq![t, s];
    assert(is_derivation(rules, judge, path));
}

/// Reaching is transitive.
pub proof fn lemma_reaches_trans(rules: Seq<RuleModel>, judge: ConditionJudge, t: Term, s: Term, r: Term)
    requires
        reaches(rules, judge, t, s),
        reaches(rules, judge, s, r),
    ensures
        reaches(rules, judge, t, r),
{
    let p1 = choose|path: Seq<Term>| #[trigger] is_derivation(rules, judge, path) && path[0] == t && path.last() == s;
    let p2 = choose|path: Seq<Term>| #[trigger] is_derivation(rules, judge, path) && path[0] == s && path.last() == r;
    let path = p1 + p2.drop_first();
    assert forall|i: int| 0 <= i < path.len() - 1 implies rewrite_step(rules, judge, #[trigger] path[i], path[i + 1]) by {
        if i < p1.len() - 1 {
            assert(path[i] == p1[i] && path[i + 1] == p1[i + 1]);
        } else if i == p1.len() - 1 {
            assert(path[i] == p1.last());
            assert(path[i + 1] == p2[1]);
            assert(rewrite_step(rules, judge, p2[0], p2[1]));
        } else {
            let j = i - p1.len() + 1;
            assert(path[i] == p2[j] && path[i + 1] == p2[j + 1]);
        }
    }
    if p2.len() == 1 {
        assert(path.last() == p1.last());
    } else {
        assert(path.last() == p2.last());
    }
    assert(is_derivation(rules, judge, path));
}

/// The subterm at a position below the place of a replacement is that of
/// the term put there.
pub proof fn lemma_subterm_in_replaced(c: Term, q: Seq<usize>, x: Term, p: Seq<usize>)
    requires
        is_position(c, q),
    ensures
        subterm_at(replace_at(c, q, x), q + p) == subterm_at(x, p),
    decreases q.len(),
{
    if q.len() == 0 {
        assert(q + p =~= p);
    } else {
        let i = q[0] - 1;
        assert((q + p)[0] == q[0]);
        assert((q + p).drop_first() =~= q.drop_first() + p);
        lemma_subterm_in_replaced(c.args[i], q.drop_first(), x, p);
    }
}

/// Replacing below the place of a replacement replaces within the term put
/// there.
pub proof fn lemma_replace_in_replaced(c: Term, q: Seq<usize>, x: Term, p: Seq<usize>, w: Term)
    requires
        is_position(c, q),
    ensures
        replace_at(replace_at(c, q, x), q + p, w) == replace_at(c, q, replace_at(x, p, w)),
    decreases q.len(),
{
    if q.len() == 0 {
        assert(q + p =~= p);
    } else {
        let i = q[0] - 1;
        assert((q + p)[0] == q[0]);
        assert((q + p).drop_first() =~= q.drop_first() + p);
        lemma_replace_in_replaced(c.args[i], q.drop_first(), x, p, w);
        assert(replace_at(replace_at(c, q, x), q + p, w).args =~= replace_at(c, q, replace_at(x, p, w)).args);
    }
}

/// A step in a subterm is a step of the term.
pub proof fn lemma_step_in_context(rules: Seq<RuleModel>, judge: ConditionJudge, c: Term, q: Seq<usize>, x: Term, y: Term)
    requires
        is_position(c, q),
        data_position(q),
        rewrite_step(rules, judge, x, y),
    ensures
        rewrite_step(rules, judge, replace_at(c, q, x), replace_at(c, q, y)),
{
    let (k, p, m) = choose|k: int, p: Seq<usize>, m: Map<usize, Seq<usize>>|
        #![trigger rules[k], subterm_at(x, p), var_map_sound(rules[k].lhs, m)]
        0 <= k < rules.len() && data_position(p) && subterm_at(x, p) is Some && rule_applies(rules[k], subterm_at(x, p)->0)
            && var_map_sound(rules[k].lhs, m) && variables_in(rules[k].lhs, m.dom()) && judge(
            rules[k],
            m,
            subterm_at(x, p)->0,
        ) && y == replace_at(
            x,
            p,
            instantiate(rules[k].rhs, m, subterm_at(x, p)->0),
        );
    let cx = replace_at(c, q, x);
    lemma_subterm_in_replaced(c, q, x, p);
    let w = instantiate(rules[k].rhs, m, subterm_at(x, p)->0);
    lemma_replace_in_replaced(c, q, x, p, w);
    assert(subterm_at(cx, q + p) == subterm_at(x, p));
    assert(data_position(q + p)) by {
        assert forall|i: int| 0 <= i < (q + p).len() implies #[trigger] (q + p)[i] >= 2 by {
            if i < q.len() {
                assert((q + p)[i] == q[i]);
            } else {
                assert((q + p)[i] == p[i - q.len()]);
            }
        }
    }
    assert(replace_at(c, q, y) == replace_at(cx, q + p, instantiate(rules[k].rhs, m, subterm_at(cx, q + p)->0)));
}

/// A rewrite sequence in a subterm is one of the term.
pub proof fn lemma_reaches_in_context(rules: Seq<RuleModel>, judge: ConditionJudge, c: Term, q: Seq<usize>, x: Term, y: Term)
    requires
        is_position(c, q),
        data_position(q),
        reaches(rules, judge, x, y),
    ensures
        reaches(rules, judge, replace_at(c, q, x), replace_at(c, q, y)),
{
    let path = choose|path: Seq<Term>| #[trigger] is_derivation(rules, judge, path) && path[0] == x && path.last() == y;
    let lifted = Seq::new(path.len(), |i: int| replace_at(c, q, path[i]));
    assert forall|i: int| 0 <= i < lifted.len() - 1 implies rewrite_step(rules, judge, #[trigger] lifted[i], lifted[i + 1]) by {
        lemma_step_in_context(rules, judge, c, q, path[i], path[i + 1]);
    }
    assert(is_derivation(rules, judge, lifted));
    assert(lifted.last() == replace_at(c, q, path.last()));
}

/// In a supported term, variables stand at data positions only.
pub proof fn lemma_variable_at_data_position(t: Term, q: Seq<usize>)
    requires
        is_supported(t),
        subterm_at(t, q) is Some,
        subterm_at(t, q)->0.variable,
    ensures
        data_position(q),
    decreases q.len(),
{
    if q.len() > 0 {
        let c = q[0];
        let rest = q.drop_first();
        assert(is_data_application(t));
        if c == 1 {
            assert(t.args[0].args.len() == 0);
            if rest.len() > 0 {
                assert(subterm_at(t.args[0], rest) is None);
            }
            assert(!t.args[0].variable);
        } else {
            assert(is_supported(t.args[c - 1]));
            lemma_variable_at_data_position(t.args[c - 1], rest);
            assert forall|i: int| 0 <= i < q.len() implies #[trigger] q[i] >= 2 by {
                if i > 0 {
                    assert(q[i] == rest[i - 1]);
                }
            }
        }
    }
}

/// Every data position of a supported pattern is a position of a term that
/// it matches.
pub proof fn lemma_matched_position(p: Term, t: Term, q: Seq<usize>)
    requires
        is_supported(p),
        matches_linearly(p, t),
        data_position(q),
        subterm_at(p, q) is Some,
    ensures
        subterm_at(t, q) is Some,
    decreases q.len(),
{
    if q.len() > 0 {
        let c = q[0];
        let rest = q.drop_first();
        assert(c >= 2);
        assert(is_data_application(p));
        assert(data_arguments(p).len() > 0);
        assert(data_arguments(t).len() == data_arguments(p).len());
        assert(is_data_application(t));
        assert(t.args.len() == p.args.len());
        assert(matches_linearly(p.args[c - 1], t.args[c - 1]));
        assert(data_position(rest)) by {
            assert forall|i: int| 0 <= i < rest.len() implies #[trigger] rest[i] >= 2 by {
                assert(rest[i] == q[i + 1]);
            }
        }
        lemma_matched_position(p.args[c - 1], t.args[c - 1], rest);
    }
}

/// An instance of a supported term whose symbols occur in `ts`, with its
/// variables replaced by supported subterms whose symbols agree with `ts`,
/// is supported and its symbols agree with `ts`.
pub proof fn lemma_instance_supported(r: Term, m: Map<usize, Seq<usize>>, u: Term, ts: Seq<Term>)
    requires
        is_supported(r),
        well_sized(r),
        symbols_from(r, ts),
        variables_in(r, m.dom()),
        forall|v: usize|
            #[trigger] m.contains_key(v) ==> subterm_at(u, m[v]) is Some && is_supported(subterm_at(u, m[v])->0)
                && symbols_agree(subterm_at(u, m[v])->0, ts) && well_sized(subterm_at(u, m[v])->0),
    ensures
        is_supported(instantiate(r, m, u)),
        symbols_agree(instantiate(r, m, u), ts),
        well_sized(instantiate(r, m, u)),
    decreases r,
{
    let x = instantiate(r, m, u);
    if r.variable {
        assert(subterm_at(r, Seq::<usize>::empty()) == Some(r));
        assert(m.contains_key(r.symbol));
    } else if r.args.len() == 0 {
        assert(x.args =~= r.args);
        assert(x == r);
        assert forall|f: usize, n: nat| #[trigger] symbol_occurs(x, f, n) && occurs_somewhere(ts, f) implies occurs_in(ts, f, n) by {
            assert(symbol_occurs(r, f, n));
        }
    } else {
        assert(is_data_application(r));
        assert forall|i: int| 1 <= i < r.args.len() implies is_supported(#[trigger] instantiate(r.args[i], m, u))
            && symbols_agree(instantiate(r.args[i], m, u), ts) && well_sized(instantiate(r.args[i], m, u)) by {
            assert(is_supported(r.args[i]));
            assert(well_sized(r.args[i]));
            assert forall|f: usize, n: nat| #[trigger] symbol_occurs(r.args[i], f, n) implies occurs_in(ts, f, n) by {
                assert(symbol_occurs(r, f, n));
            }
            lemma_variables_in_arg(r, m.dom(), i);
            lemma_instance_supported(r.args[i], m, u, ts);
        }
        let h = r.args[0];
        assert(instantiate(h, m, u).args =~= h.args);
        assert(x.args[0] == instantiate(h, m, u));
        assert(x.args[0] == h);
        assert forall|i: int| 1 <= i < x.args.len() implies is_supported(#[trigger] x.args[i]) && well_sized(x.args[i]) by {
            assert(x.args[i] == instantiate(r.args[i], m, u));
        }
        assert(well_sized(x.args[0]));
        assert forall|f: usize, n: nat| #[trigger] symbol_occurs(x, f, n) && occurs_somewhere(ts, f) implies occurs_in(ts, f, n) by {
            if x.args[0].symbol == f && n == x.args.len() - 1 {
                assert(symbol_occurs(r, f, n));
            } else {
                let i = choose|i: int| 1 <= i < x.args.len() && symbol_occurs(#[trigger] x.args[i], f, n);
                assert(x.args[i] == instantiate(r.args[i], m, u));
            }
        }
    }
}

/// The instance of the right hand side of a supported, well formed rule
/// that applies to a supported term whose symbols agree with `ts` is
/// supported and its symbols agree with `ts`.
pub proof fn lemma_rule_instance_supported(rule: RuleModel, m: Map<usize, Seq<usize>>, u: Term, ts: Seq<Term>)
    requires
        is_supported(rule.lhs),
        is_supported(rule.rhs),
        well_sized(rule.rhs),
        variables_bound(rule.rhs, rule.lhs),
        symbols_from(rule.rhs, ts),
        rule_applies(rule, u),
        var_map_sound(rule.lhs, m),
        variables_in(rule.lhs, m.dom()),
        is_supported(u),
        symbols_agree(u, ts),
        well_sized(u),
    ensures
        is_supported(instantiate(rule.rhs, m, u)),
        symbols_agree(instantiate(rule.rhs, m, u), ts),
        well_sized(instantiate(rule.rhs, m, u)),
{
    lemma_variables_bound(rule.rhs, rule.lhs, m.dom());
    assert forall|v: usize| #[trigger] m.contains_key(v) implies subterm_at(u, m[v]) is Some && is_supported(
        subterm_at(u, m[v])->0,
    ) && symbols_agree(subterm_at(u, m[v])->0, ts) && well_sized(subterm_at(u, m[v])->0) by {
        lemma_variable_at_data_position(rule.lhs, m[v]);
        lemma_matched_position(rule.lhs, u, m[v]);
        lemma_well_sized_below(u, m[v]);
        lemma_supported_below(u, m[v]);
        assert forall|f: usize, n: nat| #[trigger] symbol_occurs(subterm_at(u, m[v])->0, f, n) && occurs_somewhere(ts, f) implies occurs_in(ts, f, n) by {
            lemma_symbol_occurs_below(u, m[v], f, n);
        }
    }
    lemma_instance_supported(rule.rhs, m, u, ts);
}

/// The subterms of a well sized term are well sized.
pub proof fn lemma_well_sized_below(t: Term, p: Seq<usize>)
    requires
        well_sized(t),
        subterm_at(t, p) is Some,
    ensures
        well_sized(subterm_at(t, p)->0),
    decreases p.len(),
{
    if p.len() > 0 {
        lemma_well_sized_below(t.args[p[0] - 1], p.drop_first());
    }
}

/// The goal holds for `u`: the pattern of every obligation is a supported
/// term that is not a variable and matches the subterm of `u` at its
/// position.
pub open spec fn goal_holds(g: GoalModel, u: Term) -> bool {
    forall|j: int|
        0 <= j < g.obligations.len() ==> is_supported((#[trigger] g.obligations[j]).pattern)
            && !g.obligations[j].pattern.variable && matches_at(g.obligations[j].pattern, u, g.obligations[j].position)
}

/// The positions of the obligations of the goals are positions of `u`.
pub open spec fn obligations_within(gs: Seq<GoalModel>, u: Term) -> bool {
    forall|k: int, j: int|
        0 <= k < gs.len() && 0 <= j < gs[k].obligations.len() ==> is_position(u, (#[trigger] gs[k].obligations[j]).position)
}

/// The obligations for the arguments are, each, the argument with some
/// index `a` (from 0) at `label.(a + 2)`.
proof fn lemma_argument_obligation_from(args: Seq<Term>, label: Seq<usize>, j: int)
    requires
        0 <= j < argument_obligations(args, label).len(),
    ensures
        exists|a: int|
            0 <= a < args.len() && argument_obligations(args, label)[j] == (ObligationModel {
                pattern: #[trigger] args[a],
                position: label.push((a + 2) as usize),
            }) && !is_data_variable(args[a]),
    decreases args.len(),
{
    let rest = argument_obligations(args.drop_last(), label);
    if j < rest.len() {
        lemma_argument_obligation_from(args.drop_last(), label, j);
        let a = choose|a: int|
            0 <= a < args.drop_last().len() && rest[j] == (ObligationModel {
                pattern: #[trigger] args.drop_last()[a],
                position: label.push((a + 2) as usize),
            }) && !is_data_variable(args.drop_last()[a]);
        assert(args.drop_last()[a] == args[a]);
        assert(argument_obligations(args, label)[j] == rest[j]);
    } else {
        let a = args.len() - 1;
        assert(args.last() == args[a]);
        assert(argument_obligations(args, label)[j] == ObligationModel {
            pattern: args[a],
            position: label.push((a + 2) as usize),
        });
    }
}

/// Every reduced obligation is the reduction of an obligation.
proof fn lemma_reduced_from_one(os: Seq<ObligationModel>, label: Seq<usize>, f: usize, j: int)
    requires
        0 <= j < reduced_obligations(os, label, f).len(),
    ensures
        exists|i: int|
            0 <= i < os.len() && (#[trigger] reduce_obligation(os[i], label, f)).contains(
                reduced_obligations(os, label, f)[j],
            ),
    decreases os.len(),
{
    let rest = reduced_obligations(os.drop_last(), label, f);
    let last = reduce_obligation(os.last(), label, f);
    assert(reduced_obligations(os, label, f) == rest + last);
    if j < rest.len() {
        lemma_reduced_from_one(os.drop_last(), label, f, j);
        let i = choose|i: int|
            0 <= i < os.drop_last().len() && (#[trigger] reduce_obligation(os.drop_last()[i], label, f)).contains(
                rest[j],
            );
        assert(os.drop_last()[i] == os[i]);
        assert((rest + last)[j] == rest[j]);
    } else {
        assert((rest + last)[j] == last[j - rest.len()]);
        assert(last.contains(last[j - rest.len()]));
        assert(os[os.len() - 1] == os.last());
    }
}

/// The obligation for an argument of a pattern that matches the subterm at
/// the label holds, and lies at a position of `u`.
proof fn lemma_argument_obligation_holds(p: Term, u: Term, label: Seq<usize>, a: int)
    requires
        is_supported(p),
        !p.variable,
        subterm_at(u, label) is Some,
        matches_linearly(p, subterm_at(u, label)->0),
        0 <= a < data_arguments(p).len(),
        data_arguments(p).len() < usize::MAX,
        !is_data_variable(data_arguments(p)[a]),
    ensures
        is_supported(data_arguments(p)[a]),
        !data_arguments(p)[a].variable,
        matches_at(data_arguments(p)[a], u, label.push((a + 2) as usize)),
{
    let s = subterm_at(u, label)->0;
    assert(is_data_application(p));
    assert(data_arguments(p)[a] == p.args[a + 1]);
    assert(is_supported(p.args[a + 1]));
    assert(data_arguments(s).len() > 0);
    assert(is_data_application(s));
    assert(matches_linearly(p.args[a + 1], s.args[a + 1]));
    lemma_subterm_push(u, label, s, (a + 2) as usize);
}

/// Reading the symbol at the label keeps every goal that holds for `u`:
/// it is completed, or its rule has a kept or reduced goal that holds for
/// `u`.
pub proof fn lemma_derivative_keeps(gs: Seq<GoalModel>, label: Seq<usize>, f: usize, u: Term, ts: Seq<Term>)
    requires
        goals_in_shape(gs, ts),
        arities_bounded(ts),
        subterm_at(u, label) is Some,
        data_function_symbol(subterm_at(u, label)->0) == symbol_term(f),
    ensures
        forall|k: int|
            0 <= k < gs.len() && goal_holds(#[trigger] gs[k], u) ==> derivative_of(gs, label, f).0.contains(gs[k])
                || (exists|c: int|
                0 <= c < derivative_of(gs, label, f).1.len() && (#[trigger] derivative_of(gs, label, f).1[c]).announcement.rule
                    == gs[k].announcement.rule && goal_holds(derivative_of(gs, label, f).1[c], u)) || (exists|c: int|
                0 <= c < derivative_of(gs, label, f).2.len() && (#[trigger] derivative_of(gs, label, f).2[c]).announcement.rule
                    == gs[k].announcement.rule && goal_holds(derivative_of(gs, label, f).2[c], u)),
    decreases gs.len(),
{
    if gs.len() > 0 {
        let rest = gs.drop_last();
        let g = gs.last();
        let last = gs.len() - 1;
        assert(gs[last] == g);
        assert(goals_in_shape(rest, ts)) by {
            assert forall|k: int| 0 <= k < rest.len() implies goal_in_shape(#[trigger] rest[k], ts) by {
                assert(rest[k] == gs[k]);
            }
        }
        lemma_derivative_keeps(rest, label, f, u, ts);
        let d = derivative_of(gs, label, f);
        let r = derivative_of(rest, label, f);
        assert forall|k: int| 0 <= k < gs.len() && goal_holds(#[trigger] gs[k], u) implies d.0.contains(gs[k]) || (exists|c: int|
            0 <= c < d.1.len() && (#[trigger] d.1[c]).announcement.rule == gs[k].announcement.rule && goal_holds(d.1[c], u))
            || (exists|c: int|
            0 <= c < d.2.len() && (#[trigger] d.2[c]).announcement.rule == gs[k].announcement.rule && goal_holds(d.2[c], u)) by {
            if k < rest.len() {
                assert(rest[k] == gs[k]);
                if r.0.contains(gs[k]) {
                    let c = choose|c: int| 0 <= c < r.0.len() && r.0[c] == gs[k];
                    assert(d.0.len() >= r.0.len() && d.0[c] == r.0[c]);
                } else if exists|c: int|
                    0 <= c < r.1.len() && (#[trigger] r.1[c]).announcement.rule == gs[k].announcement.rule && goal_holds(r.1[c], u) {
                    let c = choose|c: int|
                        0 <= c < r.1.len() && (#[trigger] r.1[c]).announcement.rule == gs[k].announcement.rule && goal_holds(r.1[c], u);
                    assert(d.1.len() >= r.1.len() && d.1[c] == r.1[c]);
                } else {
                    let c = choose|c: int|
                        0 <= c < r.2.len() && (#[trigger] r.2[c]).announcement.rule == gs[k].announcement.rule && goal_holds(r.2[c], u);
                    assert(d.2.len() >= r.2.len() && d.2[c] == r.2[c]);
                }
            } else {
                assert(k == last);
                lemma_last_goal_kept(g, label, f, u, ts);
                if goal_completed(g, label, f) {
                    assert(d.0 == r.0.push(g));
                    assert(d.0[r.0.len() as int] == g);
                } else if goal_discarded(g, label, f) {
                    assert(false);
                } else if goal_unchanged(g, label) {
                    assert(d.1 == r.1.push(unchanged_goal(g)));
                    assert(d.1[r.1.len() as int] == unchanged_goal(g));
                } else {
                    assert(d.2 == r.2.push(reduced_goal(g, label, f)));
                    assert(d.2[r.2.len() as int] == reduced_goal(g, label, f));
                }
            }
        }
    }
}

/// A goal in shape that holds for `u` is not discarded by reading the
/// symbol at the label, and its kept or reduced goal holds for `u`.
proof fn lemma_last_goal_kept(g: GoalModel, label: Seq<usize>, f: usize, u: Term, ts: Seq<Term>)
    requires
        goal_in_shape(g, ts),
        arities_bounded(ts),
        goal_holds(g, u),
        subterm_at(u, label) is Some,
        data_function_symbol(subterm_at(u, label)->0) == symbol_term(f),
    ensures
        !goal_discarded(g, label, f),
        goal_unchanged(g, label) ==> goal_holds(unchanged_goal(g), u) && unchanged_goal(g).announcement.rule
            == g.announcement.rule,
        goal_reduced(g, label, f) ==> goal_holds(reduced_goal(g, label, f), u),
{
    let os = g.obligations;
    if goal_discarded(g, label, f) {
        let j = choose|j: int| 0 <= j < os.len() && (#[trigger] os[j]).position == label && !head_is(os[j].pattern, f);
        assert(matches_at(os[j].pattern, u, os[j].position));
        assert(!os[j].pattern.variable);
    }
    let h = unchanged_goal(g);
    assert(h.obligations == g.obligations);
    assert forall|j: int| 0 <= j < h.obligations.len() implies is_supported((#[trigger] h.obligations[j]).pattern)
        && !h.obligations[j].pattern.variable && matches_at(h.obligations[j].pattern, u, h.obligations[j].position) by {
        assert(h.obligations[j] == os[j]);
    }
    if goal_reduced(g, label, f) {
        let ro = reduced_goal(g, label, f).obligations;
        assert(ro == reduced_obligations(os, label, f));
        assert forall|j: int| 0 <= j < ro.len() implies is_supported((#[trigger] ro[j]).pattern)
            && !ro[j].pattern.variable && matches_at(ro[j].pattern, u, ro[j].position) by {
            lemma_reduced_from_one(os, label, f, j);
            let i = choose|i: int| 0 <= i < os.len() && (#[trigger] reduce_obligation(os[i], label, f)).contains(ro[j]);
            if head_is(os[i].pattern, f) && os[i].position == label {
                let p = os[i].pattern;
                let args = data_arguments(p);
                let ao = argument_obligations(args, label);
                let jj = choose|jj: int| 0 <= jj < ao.len() && ao[jj] == ro[j];
                lemma_argument_obligation_from(args, label, jj);
                let a = choose|a: int|
                    0 <= a < args.len() && ao[jj] == (ObligationModel {
                        pattern: #[trigger] args[a],
                        position: label.push((a + 2) as usize),
                    }) && !is_data_variable(args[a]);
                lemma_pattern_arguments_bounded(p, ts);
                assert(matches_at(p, u, label));
                lemma_argument_obligation_holds(p, u, label, a);
            } else {
                assert(reduce_obligation(os[i], label, f) == seq![os[i]]);
                assert(ro[j] == os[i]);
            }
        }
    }
}

/// Sorting the obligations keeps goals that hold.
pub proof fn lemma_sorted_holds(a: GoalModel, b: GoalModel, u: Term)
    requires
        goal_holds(a, u),
        a.obligations.to_multiset() == b.obligations.to_multiset(),
    ensures
        goal_holds(b, u),
{
    broadcast use vstd::seq_lib::group_to_multiset_ensures;

    let x = a.obligations;
    let y = b.obligations;
    x.to_multiset_ensures();
    y.to_multiset_ensures();
    assert forall|j: int| 0 <= j < y.len() implies is_supported((#[trigger] y[j]).pattern) && !y[j].pattern.variable
        && matches_at(y[j].pattern, u, y[j].position) by {
        assert(y.contains(y[j]));
        assert(y.to_multiset().count(y[j]) > 0);
        assert(x.to_multiset().count(y[j]) > 0);
        assert(x.contains(y[j]));
        let i = choose|i: int| 0 <= i < x.len() && x[i] == y[j];
    }
}

/// Reading the symbol at the label keeps the obligations of the kept and
/// reduced goals at positions of `u`, when the patterns read there have as
/// many arguments as the subterm at the label.
pub proof fn lemma_derivative_within(gs: Seq<GoalModel>, label: Seq<usize>, f: usize, u: Term, ts: Seq<Term>)
    requires
        goals_in_shape(gs, ts),
        arities_bounded(ts),
        obligations_within(gs, u),
        subterm_at(u, label) is Some,
        data_function_symbol(subterm_at(u, label)->0) == symbol_term(f),
        forall|k: int, j: int|
            0 <= k < gs.len() && 0 <= j < gs[k].obligations.len() && (#[trigger] gs[k].obligations[j]).position
                == label && head_is(gs[k].obligations[j].pattern, f) ==> data_arguments(
                gs[k].obligations[j].pattern,
            ).len() == data_arguments(subterm_at(u, label)->0).len(),
    ensures
        obligations_within(derivative_of(gs, label, f).1, u),
        obligations_within(derivative_of(gs, label, f).2, u),
    decreases gs.len(),
{
    if gs.len() > 0 {
        let rest = gs.drop_last();
        let g = gs.last();
        let last = gs.len() - 1;
        assert(gs[last] == g);
        assert(goals_in_shape(rest, ts)) by {
            assert forall|k: int| 0 <= k < rest.len() implies goal_in_shape(#[trigger] rest[k], ts) by {
                assert(rest[k] == gs[k]);
            }
        }
        assert forall|k: int, j: int| 0 <= k < rest.len() && 0 <= j < rest[k].obligations.len() implies is_position(
            u,
            (#[trigger] rest[k].obligations[j]).position,
        ) by {
            assert(rest[k] == gs[k]);
        }
        assert forall|k: int, j: int|
            0 <= k < rest.len() && 0 <= j < rest[k].obligations.len() && (#[trigger] rest[k].obligations[j]).position
                == label && head_is(rest[k].obligations[j].pattern, f) implies data_arguments(
            rest[k].obligations[j].pattern,
        ).len() == data_arguments(subterm_at(u, label)->0).len() by {
            assert(rest[k] == gs[k]);
        }
        lemma_derivative_within(rest, label, f, u, ts);
        let d = derivative_of(gs, label, f);
        let r = derivative_of(rest, label, f);
        let os = g.obligations;
        assert forall|j: int| 0 <= j < os.len() implies is_position(u, (#[trigger] os[j]).position) by {
            assert(gs[last].obligations[j] == os[j]);
        }
        assert forall|k: int, j: int| 0 <= k < d.1.len() && 0 <= j < d.1[k].obligations.len() implies is_position(
            u,
            (#[trigger] d.1[k].obligations[j]).position,
        ) by {
            if k < r.1.len() {
                assert(d.1[k] == r.1[k]);
            } else {
                assert(d.1[k] == unchanged_goal(g));
                assert(unchanged_goal(g).obligations == os);
            }
        }
        assert forall|k: int, j: int| 0 <= k < d.2.len() && 0 <= j < d.2[k].obligations.len() implies is_position(
            u,
            (#[trigger] d.2[k].obligations[j]).position,
        ) by {
            if k < r.2.len() {
                assert(d.2[k] == r.2[k]);
            } else {
                assert(d.2[k] == reduced_goal(g, label, f));
                let ro = reduced_obligations(os, label, f);
                assert(d.2[k].obligations == ro);
                lemma_reduced_from_one(os, label, f, j);
                let i = choose|i: int| 0 <= i < os.len() && (#[trigger] reduce_obligation(os[i], label, f)).contains(ro[j]);
                if head_is(os[i].pattern, f) && os[i].position == label {
                    let p = os[i].pattern;
                    let args = data_arguments(p);
                    let ao = argument_obligations(args, label);
                    let jj = choose|jj: int| 0 <= jj < ao.len() && ao[jj] == ro[j];
                    lemma_argument_obligation_from(args, label, jj);
                    let a = choose|a: int|
                        0 <= a < args.len() && ao[jj] == (ObligationModel {
                            pattern: #[trigger] args[a],
                            position: label.push((a + 2) as usize),
                        }) && !is_data_variable(args[a]);
                    assert(gs[last].obligations[i] == os[i]);
                    assert(goal_in_shape(gs[last], ts));
                    lemma_pattern_arguments_bounded(p, ts);
                    let sub = subterm_at(u, label)->0;
                    assert(data_arguments(sub).len() == args.len());
                    assert(is_data_application(sub));
                    lemma_subterm_push(u, label, sub, (a + 2) as usize);
                } else {
                    assert(reduce_obligation(os[i], label, f) == seq![os[i]]);
                }
            }
        }
    }
}

/// Sorting the obligations keeps them at positions of `u`.
pub proof fn lemma_sorted_within(a: Seq<GoalModel>, b: Seq<GoalModel>, u: Term)
    requires
        obligations_within(a, u),
        obligations_sorted_from(a, b),
    ensures
        obligations_within(b, u),
{
    broadcast use vstd::seq_lib::group_to_multiset_ensures;

    assert forall|k: int, j: int| 0 <= k < b.len() && 0 <= j < b[k].obligations.len() implies is_position(
        u,
        (#[trigger] b[k].obligations[j]).position,
    ) by {
        let x = a[k].obligations;
        let y = b[k].obligations;
        x.to_multiset_ensures();
        y.to_multiset_ensures();
        assert(y.contains(y[j]));
        assert(y.to_multiset().count(y[j]) > 0);
        assert(x.to_multiset().count(y[j]) > 0);
        assert(x.contains(y[j]));
        let i = choose|i: int| 0 <= i < x.len() && x[i] == y[j];
        assert(a[k].obligations[i] == y[j]);
    }
}

/// Every function symbol of `t` occurs in the terms `ts`.
pub open spec fn symbols_known(t: Term, ts: Seq<Term>) -> bool {
    forall|f: usize, n: nat| #[trigger] symbol_occurs(t, f, n) ==> occurs_somewhere(ts, f)
}

/// The subterms of a term without variables have no variables.
pub proof fn lemma_ground_below(t: Term, p: Seq<usize>)
    requires
        is_ground(t),
        subterm_at(t, p) is Some,
    ensures
        is_ground(subterm_at(t, p)->0),
    decreases p.len(),
{
    if p.len() > 0 {
        assert(is_ground(t.args[p[0] - 1]));
        lemma_ground_below(t.args[p[0] - 1], p.drop_first());
    }
}

/// An instance of a supported term whose symbols occur in `ts`, with its
/// variables replaced by subterms without variables whose symbols occur in
/// `ts`, has no variables and its symbols occur in `ts`.
pub proof fn lemma_instance_ground(r: Term, m: Map<usize, Seq<usize>>, u: Term, ts: Seq<Term>)
    requires
        is_supported(r),
        well_sized(r),
        symbols_from(r, ts),
        variables_in(r, m.dom()),
        forall|v: usize|
            #[trigger] m.contains_key(v) ==> subterm_at(u, m[v]) is Some && is_ground(subterm_at(u, m[v])->0)
                && symbols_known(subterm_at(u, m[v])->0, ts),
    ensures
        is_ground(instantiate(r, m, u)),
        symbols_known(instantiate(r, m, u), ts),
    decreases r,
{
    let x = instantiate(r, m, u);
    if r.variable {
        assert(subterm_at(r, Seq::<usize>::empty()) == Some(r));
        assert(m.contains_key(r.symbol));
    } else if r.args.len() == 0 {
        assert(x.args =~= r.args);
        assert(x == r);
        assert forall|f: usize, n: nat| #[trigger] symbol_occurs(x, f, n) implies occurs_somewhere(ts, f) by {
            assert(symbol_occurs(r, f, n));
            assert(occurs_in(ts, f, n));
        }
    } else {
        assert(is_data_application(r));
        assert forall|i: int| 1 <= i < r.args.len() implies is_ground(#[trigger] instantiate(r.args[i], m, u))
            && symbols_known(instantiate(r.args[i], m, u), ts) by {
            assert(is_supported(r.args[i]));
            assert(well_sized(r.args[i]));
            assert forall|f: usize, n: nat| #[trigger] symbol_occurs(r.args[i], f, n) implies occurs_in(ts, f, n) by {
                assert(symbol_occurs(r, f, n));
            }
            lemma_variables_in_arg(r, m.dom(), i);
            lemma_instance_ground(r.args[i], m, u, ts);
        }
        let h = r.args[0];
        assert(instantiate(h, m, u).args =~= h.args);
        assert(x.args[0] == h);
        assert forall|i: int| 0 <= i < x.args.len() implies is_ground(#[trigger] x.args[i]) by {
            if i > 0 {
                assert(x.args[i] == instantiate(r.args[i], m, u));
            }
        }
        assert forall|f: usize, n: nat| #[trigger] symbol_occurs(x, f, n) implies occurs_somewhere(ts, f) by {
            if x.args[0].symbol == f && n == x.args.len() - 1 {
                assert(symbol_occurs(r, f, n));
                assert(occurs_in(ts, f, n));
            } else {
                let i = choose|i: int| 1 <= i < x.args.len() && symbol_occurs(#[trigger] x.args[i], f, n);
                assert(x.args[i] == instantiate(r.args[i], m, u));
            }
        }
    }
}

/// The instance of the right hand side of a supported, well formed rule
/// that applies to a supported term without variables whose symbols occur
/// in `ts` has no variables and its symbols occur in `ts`.
pub proof fn lemma_rule_instance_ground(rule: RuleModel, m: Map<usize, Seq<usize>>, u: Term, ts: Seq<Term>)
    requires
        is_supported(rule.lhs),
        is_supported(rule.rhs),
        well_sized(rule.rhs),
        variables_bound(rule.rhs, rule.lhs),
        symbols_from(rule.rhs, ts),
        rule_applies(rule, u),
        var_map_sound(rule.lhs, m),
        variables_in(rule.lhs, m.dom()),
        is_ground(u),
        symbols_known(u, ts),
    ensures
        is_ground(instantiate(rule.rhs, m, u)),
        symbols_known(instantiate(rule.rhs, m, u), ts),
{
    lemma_variables_bound(rule.rhs, rule.lhs, m.dom());
    assert forall|v: usize| #[trigger] m.contains_key(v) implies subterm_at(u, m[v]) is Some && is_ground(
        subterm_at(u, m[v])->0,
    ) && symbols_known(subterm_at(u, m[v])->0, ts) by {
        lemma_variable_at_data_position(rule.lhs, m[v]);
        lemma_matched_position(rule.lhs, u, m[v]);
        lemma_ground_below(u, m[v]);
        assert forall|f: usize, n: nat| #[trigger] symbol_occurs(subterm_at(u, m[v])->0, f, n) implies occurs_somewhere(ts, f) by {
            lemma_symbol_occurs_below(u, m[v], f, n);
        }
    }
    lemma_instance_ground(rule.rhs, m, u, ts);
}

} // verus!
