use vstd::prelude::*;

use crate::announcement::{check_equivalence_classes, EMACondition, EnhancedMatchAnnouncement, EquivalenceClass};
use crate::announcement::{
    class_sound, classes_hold, classes_view, compiled_with, equivalence_classes_of, is_compiled, AnnouncementModel,
};
use crate::goal_shape::{
    arities_bounded, data_position, goal_in_shape, goals_in_shape, lemma_derivative_root, lemma_rules_rhs_symbols,
};
use crate::announcement::rule_well_formed;
use crate::matching::{
    goal_holds, lemma_derivative_keeps, lemma_derivative_within,
    lemma_ground_below, lemma_head_occurs, lemma_matched_position, lemma_sorted_holds, lemma_sorted_within,
    lemma_symbol_occurs_below, lemma_variable_at_data_position, obligations_within, symbols_known,
    lemma_fresh_root_sound, ConditionJudge, lemma_reaches_in_context, lemma_reaches_refl, lemma_reaches_step, lemma_reaches_trans,
    lemma_rule_instance_ground, lemma_rule_instance_supported, reaches, rewrite_step, rule_applies, applies_with, goal_sound, goals_sound, lemma_arities_agree, lemma_classes_apply, lemma_derivative_sound,
    lemma_same_set_sound, lemma_sorted_sound, lemma_supported_below, matches_at, matches_linearly, symbols_agree,
};
use crate::automaton::{
    all_root, arities_consistent, derivative_of, derived, destinations_of, drops_allowed, has_state, is_label_of,
    is_root_goal, lemma_derivative_rules, obligations_sorted_from, occurs_in, occurs_somewhere, rule_supported,
    goal_announcements, occurrences, resolved, resolved_view, symbol_term,
    transition_of, DestinationModel, State, automaton_of, lemma_no_rules_initial_state, rules_terms, rules_usable, supported_rules, symbol_table_of,
    SetAutomaton, Transition,
};
use crate::match_goal::{rules_of, same_goal_set, GoalModel};
use crate::position::models;
use crate::semi_compressed_tree::{
    instantiate, is_ground, lemma_evaluate_sctt_of, lemma_sctt_of_positions_valid, lemma_variables_bound, sctt_of,
    var_map_sound, variables_bound, variables_in,
};
use crate::data::{is_supported, symbol_occurs};
use crate::rewrite_specification::{rules_view, RewriteSpecification, RuleModel};
use crate::data::{
    data_arguments, data_function_symbol, get_data_arguments, get_data_function_symbol, is_data_application,
    is_data_application_exec, DATA_APPLICATION,
};
use crate::rewriting::{added, counts_grow, lemma_added_twice, one_more, RewriteEngine, RewritingStatistics};
use crate::semi_compressed_tree::{sctt_evaluate, sctt_positions_valid, Sctt};
use crate::term::{get_position, is_position, is_position_exec, replace_at, subterm_at, terms_view, well_sized, ATerm, Term};

verus! {

/// The term `t` with its data arguments replaced by `args`: an application
/// keeps its function symbol, any other term stays as it is.
pub open spec fn rebuild(t: Term, args: Seq<Term>) -> Term {
    if is_data_application(t) {
        Term { symbol: DATA_APPLICATION, variable: false, args: seq![t.args[0]] + args }
    } else {
        t
    }
}

/// The equivalence classes can be checked on `t`: each has at least two
/// positions, and all of them are positions of `t`.
pub open spec fn classes_checkable(t: Term, eqs: Seq<EquivalenceClass>) -> bool {
    forall|k: int|
        0 <= k < eqs.len() ==> (#[trigger] eqs[k])@.positions.len() >= 2 && forall|j: int|
            0 <= j < eqs[k]@.positions.len() ==> is_position(t, #[trigger] eqs[k]@.positions[j])
}

/// The index of the first transition on the function symbol `f`, from
/// index `k` on.
pub open spec fn first_transition(ts: Seq<Transition>, f: usize, k: int) -> Option<int>
    decreases ts.len() - k,
{
    if k < 0 || k >= ts.len() {
        None
    } else if ts[k].symbol == f {
        Some(k)
    } else {
        first_transition(ts, f, k + 1)
    }
}

/// The normal form of `t` in innermost order: first the data arguments are
/// rewritten, then the first announcement that the automaton finds for the
/// resulting term is applied and its instance is rewritten in turn. Every
/// nested rewrite takes one unit of `fuel`; `None` when it runs out.
pub open spec fn normal_form(a: SetAutomaton, t: Term, fuel: nat) -> Option<Term>
    decreases fuel, 0nat, 0int,
{
    if fuel == 0 {
        None
    } else {
        let f = (fuel - 1) as nat;
        match normal_forms(a, data_arguments(t), f) {
            None => None,
            Some(args) => {
                let u = rebuild(t, args);
                match find_match_from(a, u, 0, f, f) {
                    None => None,
                    Some(None) => Some(u),
                    Some(Some(rhs)) => normal_form(a, sctt_evaluate(rhs, u), f),
                }
            },
        }
    }
}

/// The normal forms of the terms in `ts`, `None` when one of them runs out
/// of fuel.
pub open spec fn normal_forms(a: SetAutomaton, ts: Seq<Term>, fuel: nat) -> Option<Seq<Term>>
    decreases fuel, 1nat, ts.len(),
{
    if ts.len() == 0 {
        Some(Seq::empty())
    } else {
        match normal_forms(a, ts.drop_last(), fuel) {
            None => None,
            Some(rs) => match normal_form(a, ts.last(), fuel) {
                None => None,
                Some(r) => Some(rs.push(r)),
            },
        }
    }
}

/// Whether the conditions from index `k` on hold for `u`: the normal forms
/// of the instances of both sides are equal or different as each condition
/// asks. `None` when rewriting runs out of fuel.
pub open spec fn conditions_hold(a: SetAutomaton, u: Term, cs: Seq<EMACondition>, k: int, fuel: nat) -> Option<bool>
    decreases fuel, 2nat, cs.len() - k,
{
    if k < 0 || k >= cs.len() {
        Some(true)
    } else {
        let c = cs[k];
        if !sctt_positions_valid(c.semi_compressed_lhs@, u) || !sctt_positions_valid(c.semi_compressed_rhs@, u) {
            Some(false)
        } else {
            match (
                normal_form(a, sctt_evaluate(c.semi_compressed_rhs@, u), fuel),
                normal_form(a, sctt_evaluate(c.semi_compressed_lhs@, u), fuel),
            ) {
                (Some(r), Some(l)) => if (l != r && c.equality) || (l == r && !c.equality) {
                    Some(false)
                } else {
                    conditions_hold(a, u, cs, k + 1, fuel)
                },
                _ => None,
            }
        }
    }
}

/// The right hand side of the first announcement from index `k` on that
/// applies to `u`: its equivalence classes hold, its right hand side can be
/// instantiated and its conditions hold. `Some(None)` when none applies,
/// `None` when rewriting a condition runs out of fuel.
pub open spec fn first_applicable(
    a: SetAutomaton,
    u: Term,
    anns: Seq<EnhancedMatchAnnouncement>,
    k: int,
    fuel: nat,
) -> Option<Option<Sctt>>
    decreases fuel, 3nat, anns.len() - k,
{
    if k < 0 || k >= anns.len() {
        Some(None)
    } else {
        let e = anns[k];
        if !classes_checkable(u, e.equivalence_classes@) || !crate::announcement::classes_hold(
            u,
            crate::announcement::classes_view(e.equivalence_classes@),
        ) || !sctt_positions_valid(e.semi_compressed_rhs@, u) {
            first_applicable(a, u, anns, k + 1, fuel)
        } else {
            match conditions_hold(a, u, e.conditions@, 0, fuel) {
                None => None,
                Some(true) => Some(Some(e.semi_compressed_rhs@)),
                Some(false) => first_applicable(a, u, anns, k + 1, fuel),
            }
        }
    }
}

/// Runs the automaton on `u` from state `s` for at most `steps` states: the
/// symbol at the label of the state selects a transition; the first of its
/// announcements that applies is the match, otherwise the run goes on in the
/// first destination. `Some(None)` when the run ends without a match (no
/// such state, label, symbol, transition or destination), `None` when the
/// steps or the fuel run out.
pub open spec fn find_match_from(a: SetAutomaton, u: Term, s: int, steps: nat, fuel: nat) -> Option<Option<Sctt>>
    decreases fuel, 4nat, steps,
{
    if steps == 0 {
        None
    } else if s < 0 || s >= a.states@.len() {
        Some(None)
    } else {
        let state = a.states@[s];
        if !is_position(u, state.label@) {
            Some(None)
        } else {
            let symbol = data_function_symbol(subterm_at(u, state.label@)->0);
            if symbol.variable {
                Some(None)
            } else {
                match first_transition(state.transitions@, symbol.symbol, 0) {
                    None => Some(None),
                    Some(j) => {
                        let tr = state.transitions@[j];
                        match first_applicable(a, u, tr.announcements@, 0, fuel) {
                            None => None,
                            Some(Some(rhs)) => Some(Some(rhs)),
                            Some(None) => if tr.destinations@.len() == 0 {
                                Some(None)
                            } else {
                                find_match_from(a, u, tr.destinations@[0].1 as int, (steps - 1) as nat, fuel)
                            },
                        }
                    },
                }
            }
        }
    }
}

/// The number of rewrite rules that the innermost rewriter applies when it
/// rewrites `t` with `fuel` (see [normal_form]), counting those applied to
/// the arguments and to the sides of conditions.
pub open spec fn rule_count(a: SetAutomaton, t: Term, fuel: nat) -> nat
    decreases fuel, 0nat, 0int,
{
    if fuel == 0 {
        0
    } else {
        let f = (fuel - 1) as nat;
        let c1 = rule_counts(a, data_arguments(t), f);
        match normal_forms(a, data_arguments(t), f) {
            None => c1,
            Some(args) => {
                let u = rebuild(t, args);
                let c2 = find_match_count(a, u, 0, f, f);
                match find_match_from(a, u, 0, f, f) {
                    Some(Some(rhs)) => c1 + c2 + 1 + rule_count(a, sctt_evaluate(rhs, u), f),
                    _ => c1 + c2,
                }
            },
        }
    }
}

/// The number of rules applied when the terms are rewritten one after the
/// other, up to the first without a normal form.
pub open spec fn rule_counts(a: SetAutomaton, ts: Seq<Term>, fuel: nat) -> nat
    decreases fuel, 1nat, ts.len(),
{
    if ts.len() == 0 {
        0
    } else {
        let c = rule_counts(a, ts.drop_last(), fuel);
        match normal_forms(a, ts.drop_last(), fuel) {
            None => c,
            Some(_) => c + rule_count(a, ts.last(), fuel),
        }
    }
}

/// The number of rules applied when the conditions from index `k` on are
/// checked; see [conditions_hold].
pub open spec fn conditions_count(a: SetAutomaton, u: Term, cs: Seq<EMACondition>, k: int, fuel: nat) -> nat
    decreases fuel, 2nat, cs.len() - k,
{
    if k < 0 || k >= cs.len() {
        0
    } else {
        let c = cs[k];
        if !sctt_positions_valid(c.semi_compressed_lhs@, u) || !sctt_positions_valid(c.semi_compressed_rhs@, u) {
            0
        } else {
            let rhs = sctt_evaluate(c.semi_compressed_rhs@, u);
            let lhs = sctt_evaluate(c.semi_compressed_lhs@, u);
            let cr = rule_count(a, rhs, fuel);
            match normal_form(a, rhs, fuel) {
                None => cr,
                Some(r) => {
                    let cl = rule_count(a, lhs, fuel);
                    match normal_form(a, lhs, fuel) {
                        None => cr + cl,
                        Some(l) => if (l != r && c.equality) || (l == r && !c.equality) {
                            cr + cl
                        } else {
                            cr + cl + conditions_count(a, u, cs, k + 1, fuel)
                        },
                    }
                },
            }
        }
    }
}

/// The number of rules applied when the announcements from index `k` on are
/// tried; see [first_applicable].
pub open spec fn applicable_count(
    a: SetAutomaton,
    u: Term,
    anns: Seq<EnhancedMatchAnnouncement>,
    k: int,
    fuel: nat,
) -> nat
    decreases fuel, 3nat, anns.len() - k,
{
    if k < 0 || k >= anns.len() {
        0
    } else {
        let e = anns[k];
        if !classes_checkable(u, e.equivalence_classes@) || !crate::announcement::classes_hold(
            u,
            crate::announcement::classes_view(e.equivalence_classes@),
        ) || !sctt_positions_valid(e.semi_compressed_rhs@, u) {
            applicable_count(a, u, anns, k + 1, fuel)
        } else {
            let cc = conditions_count(a, u, e.conditions@, 0, fuel);
            match conditions_hold(a, u, e.conditions@, 0, fuel) {
                Some(false) => cc + applicable_count(a, u, anns, k + 1, fuel),
                _ => cc,
            }
        }
    }
}

/// The number of rules applied when the automaton runs on `u`; see
/// [find_match_from].
pub open spec fn find_match_count(a: SetAutomaton, u: Term, s: int, steps: nat, fuel: nat) -> nat
    decreases fuel, 4nat, steps,
{
    if steps == 0 {
        0
    } else if s < 0 || s >= a.states@.len() {
        0
    } else {
        let state = a.states@[s];
        if !is_position(u, state.label@) {
            0
        } else {
            let symbol = data_function_symbol(subterm_at(u, state.label@)->0);
            if symbol.variable {
                0
            } else {
                match first_transition(state.transitions@, symbol.symbol, 0) {
                    None => 0,
                    Some(j) => {
                        let tr = state.transitions@[j];
                        let ac = applicable_count(a, u, tr.announcements@, 0, fuel);
                        match first_applicable(a, u, tr.announcements@, 0, fuel) {
                            Some(None) => if tr.destinations@.len() == 0 {
                                ac
                            } else {
                                ac + find_match_count(a, u, tr.destinations@[0].1 as int, (steps - 1) as nat, fuel)
                            },
                            _ => ac,
                        }
                    },
                }
            }
        }
    }
}

/// Some prefix of the terms without a normal form: the count of all of them
/// is that of the prefix.
proof fn lemma_rule_counts_prefix(a: SetAutomaton, ts: Seq<Term>, i: int, fuel: nat)
    requires
        0 <= i <= ts.len(),
        normal_forms(a, ts.take(i), fuel) is None,
    ensures
        rule_counts(a, ts, fuel) == rule_counts(a, ts.take(i), fuel),
    decreases ts.len() - i,
{
    if i < ts.len() {
        assert(ts.take(i + 1).drop_last() =~= ts.take(i));
        lemma_rule_counts_prefix(a, ts, i + 1, fuel);
    } else {
        assert(ts.take(i) =~= ts);
    }
}

/// The model of a rewrite result.
pub open spec fn outcome(r: Option<ATerm>) -> Option<Term> {
    match r {
        Some(t) => Some(t@),
        None => None,
    }
}

/// A prefix of the terms that runs out of fuel makes all of them run out.
proof fn lemma_normal_forms_prefix(a: SetAutomaton, ts: Seq<Term>, i: int, fuel: nat)
    requires
        0 <= i <= ts.len(),
        normal_forms(a, ts.take(i), fuel) is None,
    ensures
        normal_forms(a, ts, fuel) is None,
    decreases ts.len() - i,
{
    if i < ts.len() {
        assert(ts.take(i + 1).drop_last() =~= ts.take(i));
        lemma_normal_forms_prefix(a, ts, i + 1, fuel);
    } else {
        assert(ts.take(i) =~= ts);
    }
}

/// The number of nested rewrites that [InnermostRewriter::rewrite] allows.
pub const NESTING_BUDGET: u64 = 0xffff_ffff_ffff_ffff;

/// The transitions of the initial state announce nothing and lead nowhere.
pub open spec fn inert(a: SetAutomaton) -> bool {
    a.states@.len() > 0 ==> forall|j: int|
        0 <= j < a.states@[0].transitions@.len() ==> (#[trigger] a.states@[0].transitions@[j]).announcements@.len()
            == 0 && a.states@[0].transitions@[j].destinations@.len() == 0
}

/// Innermost Adaptive Pattern Matching Automaton (APMA) rewrite engine.
pub struct InnermostRewriter {
    pub apma: SetAutomaton,
}

impl RewriteEngine for InnermostRewriter {
    fn rewrite(&mut self, term: ATerm) -> (result: Option<ATerm>)
        ensures
            outcome(result) == normal_form(old(self).apma, term@, NESTING_BUDGET as nat),
            *final(self) == *old(self),
    {
        let mut stats = RewritingStatistics::default();
        InnermostRewriter::rewrite_aux(&self.apma, &term, &mut stats, NESTING_BUDGET)
    }
}

impl InnermostRewriter {
    /// Creates the rewriter for the specification: its automaton announces
    /// matches at the root only.
    pub fn new(spec: &RewriteSpecification) -> (result: InnermostRewriter)
        requires
            rules_usable(rules_view(spec.rewrite_rules@)),
        ensures
            exists|table: Seq<(usize, usize)>, goal_sets: Seq<Seq<GoalModel>>|
                symbol_table_of(rules_terms(supported_rules(rules_view(spec.rewrite_rules@))), table)
                    && automaton_of(
                    result.apma.states@,
                    goal_sets,
                    supported_rules(rules_view(spec.rewrite_rules@)),
                    table,
                    true,
                ),
            spec.rewrite_rules@.len() == 0 ==> inert(result.apma),
    {
        let apma = SetAutomaton::new(spec, true);
        let result = InnermostRewriter { apma };
        proof {
            let (table, goal_sets) = choose|table: Seq<(usize, usize)>, goal_sets: Seq<Seq<GoalModel>>|
                symbol_table_of(rules_terms(supported_rules(rules_view(spec.rewrite_rules@))), table)
                    && automaton_of(
                    result.apma.states@,
                    goal_sets,
                    supported_rules(rules_view(spec.rewrite_rules@)),
                    table,
                    true,
                );
            assert(symbol_table_of(rules_terms(supported_rules(rules_view(spec.rewrite_rules@))), table)
                && automaton_of(
                result.apma.states@,
                goal_sets,
                supported_rules(rules_view(spec.rewrite_rules@)),
                table,
                true,
            ));
            if spec.rewrite_rules@.len() == 0 {
                assert(rules_view(spec.rewrite_rules@) =~= Seq::<RuleModel>::empty());
                assert(supported_rules(Seq::<RuleModel>::empty()) =~= Seq::<RuleModel>::empty());
                lemma_no_rules_initial_state(result.apma.states@, goal_sets, table);
            }
        }
        result
    }

    /// Function to rewrite a term 'term' with the automaton, with `fuel`
    /// nested rewrites at most.
    pub fn rewrite_aux(
        automaton: &SetAutomaton,
        term: &ATerm,
        stats: &mut RewritingStatistics,
        fuel: u64,
    ) -> (result: Option<ATerm>)
        ensures
            outcome(result) == normal_form(*automaton, term@, fuel as nat),
            counts_grow(*old(stats), *final(stats)),
            fuel > 0 ==> final(stats).recursions >= one_more(old(stats).recursions),
            final(stats).rewrite_steps == added(old(stats).rewrite_steps, rule_count(*automaton, term@, fuel as nat)),
        decreases fuel, 0nat, 0int,
    {
        if fuel == 0 {
            return None;
        }
        stats.recursions = stats.recursions.saturating_add(1);
        let arguments = get_data_arguments(term);
        let ghost ts = terms_view(arguments@);
        let mut args: Vec<ATerm> = Vec::new();
        let mut i: usize = 0;
        assert(ts.take(0) =~= Seq::<Term>::empty());
        while i < arguments.len()
            invariant
                i <= arguments@.len(),
                ts == terms_view(arguments@),
                ts == data_arguments(term@),
                fuel > 0,
                normal_forms(*automaton, ts.take(i as int), (fuel - 1) as nat) == Some(terms_view(args@)),
                counts_grow(*old(stats), *stats),
                stats.recursions >= one_more(old(stats).recursions),
                stats.rewrite_steps == added(
                    old(stats).rewrite_steps,
                    rule_counts(*automaton, ts.take(i as int), (fuel - 1) as nat),
                ),
            decreases arguments@.len() - i,
        {
            let r = InnermostRewriter::rewrite_aux(automaton, &arguments[i], stats, fuel - 1);
            assert(ts.take(i + 1).drop_last() =~= ts.take(i as int));
            assert(ts.take(i + 1).last() == arguments@[i as int]@);
            proof {
                lemma_added_twice(
                    old(stats).rewrite_steps,
                    rule_counts(*automaton, ts.take(i as int), (fuel - 1) as nat),
                    rule_count(*automaton, arguments@[i as int]@, (fuel - 1) as nat),
                );
            }
            match r {
                None => {
                    proof {
                        lemma_normal_forms_prefix(*automaton, ts, i + 1, (fuel - 1) as nat);
                        lemma_rule_counts_prefix(*automaton, ts, i + 1, (fuel - 1) as nat);
                    }
                    return None;
                },
                Some(r) => {
                    let ghost before = terms_view(args@);
                    args.push(r);
                    assert(terms_view(args@) =~= before.push(r@));
                },
            }
            i = i + 1;
        }
        assert(ts.take(i as int) =~= ts);
        let ghost rs = terms_view(args@);
        let u = if is_data_application_exec(term) {
            let ghost rs = terms_view(args@);
            let mut all: Vec<ATerm> = Vec::new();
            all.push(get_data_function_symbol(term).copy());
            all.append(&mut args);
            assert(terms_view(all@) =~= seq![term@.args[0]] + rs);
            let u = ATerm::new(DATA_APPLICATION, all);
            assert(u@.args =~= seq![term@.args[0]] + rs);
            assert(u@ == rebuild(term@, rs));
            u
        } else {
            term.copy()
        };
        assert(u@ == rebuild(term@, rs));
        let ghost c1 = rule_counts(*automaton, ts, (fuel - 1) as nat);
        let ghost c2 = find_match_count(*automaton, u@, 0, (fuel - 1) as nat, (fuel - 1) as nat);
        let found = InnermostRewriter::find_match(automaton, &u, stats, fuel - 1);
        proof {
            lemma_added_twice(old(stats).rewrite_steps, c1, c2);
            lemma_added_twice(old(stats).rewrite_steps, c1 + c2, 1);
            if let Some(Some(e)) = found {
                lemma_added_twice(
                    old(stats).rewrite_steps,
                    c1 + c2 + 1,
                    rule_count(*automaton, sctt_evaluate(e.semi_compressed_rhs@, u@), (fuel - 1) as nat),
                );
            }
        }
        match found {
            None => None,
            Some(None) => Some(u),
            Some(Some(announcement)) => {
                stats.rewrite_steps = stats.rewrite_steps.saturating_add(1);
                let instance = announcement.semi_compressed_rhs.evaluate(&u);
                InnermostRewriter::rewrite_aux(automaton, &instance, stats, fuel - 1)
            },
        }
    }

    /// Use the APMA to find a match for the given term.
    #[verifier::loop_isolation(false)]
    fn find_match<'a>(
        automaton: &'a SetAutomaton,
        t: &ATerm,
        stats: &mut RewritingStatistics,
        fuel: u64,
    ) -> (result: Option<Option<&'a EnhancedMatchAnnouncement>>)
        ensures
            result is None ==> find_match_from(*automaton, t@, 0, fuel as nat, fuel as nat) is None,
            result matches Some(None) ==> find_match_from(*automaton, t@, 0, fuel as nat, fuel as nat) == Some(
                None::<Sctt>,
            ),
            result matches Some(Some(e)) ==> find_match_from(*automaton, t@, 0, fuel as nat, fuel as nat)
                == Some(Some(e.semi_compressed_rhs@)) && sctt_positions_valid(e.semi_compressed_rhs@, t@),
            counts_grow(*old(stats), *final(stats)),
            final(stats).rewrite_steps == added(
                old(stats).rewrite_steps,
                find_match_count(*automaton, t@, 0, fuel as nat, fuel as nat),
            ),
        decreases fuel, 4nat, 0int,
    {
        let ghost target = find_match_from(*automaton, t@, 0, fuel as nat, fuel as nat);
        let ghost total = find_match_count(*automaton, t@, 0, fuel as nat, fuel as nat);
        let ghost mut consumed: nat = 0;
        // Start at the initial state
        let mut state_index: usize = 0;
        let mut steps: u64 = fuel;
        loop
            invariant
                steps <= fuel,
                target == find_match_from(*automaton, t@, 0, fuel as nat, fuel as nat),
                find_match_from(*automaton, t@, state_index as int, steps as nat, fuel as nat) == target,
                counts_grow(*old(stats), *stats),
                total == find_match_count(*automaton, t@, 0, fuel as nat, fuel as nat),
                stats.rewrite_steps == added(old(stats).rewrite_steps, consumed),
                consumed + find_match_count(*automaton, t@, state_index as int, steps as nat, fuel as nat) == total,
            decreases steps,
        {
            if steps == 0 {
                return None;
            }
            if state_index >= automaton.states.len() {
                return Some(None);
            }
            let state = &automaton.states[state_index];
            // Get the symbol at the position state.label
            stats.symbol_comparisons = stats.symbol_comparisons.saturating_add(1);
            if !is_position_exec(t, &state.label) {
                return Some(None);
            }
            let pos = get_position(t, &state.label);
            let symbol = get_data_function_symbol(&pos);
            if symbol.is_variable() {
                return Some(None);
            }
            let f = symbol.get_head_symbol();
            // Get the transition for the label and check if there is a pattern match
            let mut j: usize = 0;
            while j < state.transitions.len() && state.transitions[j].symbol != f
                invariant
                    j <= state.transitions@.len(),
                    first_transition(state.transitions@, f, 0) == first_transition(state.transitions@, f, j as int),
                decreases state.transitions@.len() - j,
            {
                j = j + 1;
            }
            if j == state.transitions.len() {
                return Some(None);
            }
            let transition = &state.transitions[j];
            let ghost base = consumed;
            let ghost ac0 = applicable_count(*automaton, t@, transition.announcements@, 0, fuel as nat);
            let mut k: usize = 0;
            while k < transition.announcements.len()
                invariant
                    k <= transition.announcements@.len(),
                    first_applicable(*automaton, t@, transition.announcements@, 0, fuel as nat)
                        == first_applicable(*automaton, t@, transition.announcements@, k as int, fuel as nat),
                    counts_grow(*old(stats), *stats),
                    base <= consumed,
                    stats.rewrite_steps == added(old(stats).rewrite_steps, consumed),
                    (consumed - base) + applicable_count(*automaton, t@, transition.announcements@, k as int, fuel as nat)
                        == ac0,
                decreases transition.announcements@.len() - k,
            {
                let announcement = &transition.announcements[k];
                if InnermostRewriter::classes_checkable_exec(t, &announcement.equivalence_classes)
                    && check_equivalence_classes(t, announcement.equivalence_classes.as_slice())
                    && announcement.semi_compressed_rhs.positions_valid(t) {
                    let ghost cc = conditions_count(*automaton, t@, announcement.conditions@, 0, fuel as nat);
                    let checked = InnermostRewriter::check_conditions(automaton, t, announcement, stats, fuel);
                    proof {
                        lemma_added_twice(old(stats).rewrite_steps, consumed, cc);
                        consumed = consumed + cc;
                    }
                    match checked {
                        None => {
                            return None;
                        },
                        Some(true) => {
                            // We found a matching pattern
                            return Some(Some(announcement));
                        },
                        Some(false) => {},
                    }
                }
                k = k + 1;
            }
            // If there is no pattern match we check if the transition has a destination state
            if transition.destinations.len() == 0 {
                // If there is no destination state there is no pattern match
                return Some(None);
            }
            // Continue matching in the next state
            state_index = transition.destinations[0].1;
            steps = steps - 1;
        }
    }

    /// Whether the equivalence classes can be checked on the term.
    #[verifier::loop_isolation(false)]
    pub(crate) fn classes_checkable_exec(t: &ATerm, eqs: &Vec<EquivalenceClass>) -> (result: bool)
        ensures
            result == classes_checkable(t@, eqs@),
    {
        let mut k: usize = 0;
        while k < eqs.len()
            invariant
                k <= eqs@.len(),
                forall|i: int|
                    0 <= i < k ==> (#[trigger] eqs@[i])@.positions.len() >= 2 && forall|j: int|
                        0 <= j < eqs@[i]@.positions.len() ==> is_position(t@, #[trigger] eqs@[i]@.positions[j]),
            decreases eqs@.len() - k,
        {
            let c = &eqs[k];
            if c.positions.len() < 2 {
                assert(c@.positions.len() == c.positions@.len());
                return false;
            }
            let mut j: usize = 0;
            while j < c.positions.len()
                invariant
                    j <= c.positions@.len(),
                    forall|i: int| 0 <= i < j ==> is_position(t@, #[trigger] c@.positions[i]),
                decreases c.positions@.len() - j,
            {
                if !is_position_exec(t, &c.positions[j]) {
                    assert(c@.positions[j as int] == c.positions@[j as int]@);
                    assert(eqs@[k as int] == *c);
                    assert(!is_position(t@, eqs@[k as int]@.positions[j as int]));
                    return false;
                }
                j = j + 1;
            }
            k = k + 1;
        }
        true
    }

    /// Checks whether the condition holds for given match announcement.
    fn check_conditions(
        automaton: &SetAutomaton,
        t: &ATerm,
        announcement: &EnhancedMatchAnnouncement,
        stats: &mut RewritingStatistics,
        fuel: u64,
    ) -> (result: Option<bool>)
        ensures
            result == conditions_hold(*automaton, t@, announcement.conditions@, 0, fuel as nat),
            counts_grow(*old(stats), *final(stats)),
            final(stats).rewrite_steps == added(
                old(stats).rewrite_steps,
                conditions_count(*automaton, t@, announcement.conditions@, 0, fuel as nat),
            ),
        decreases fuel, 2nat, 0int,
    {
        let ghost total = conditions_count(*automaton, t@, announcement.conditions@, 0, fuel as nat);
        let ghost mut consumed: nat = 0;
        let mut k: usize = 0;
        while k < announcement.conditions.len()
            invariant
                k <= announcement.conditions@.len(),
                conditions_hold(*automaton, t@, announcement.conditions@, 0, fuel as nat) == conditions_hold(
                    *automaton,
                    t@,
                    announcement.conditions@,
                    k as int,
                    fuel as nat,
                ),
                counts_grow(*old(stats), *stats),
                total == conditions_count(*automaton, t@, announcement.conditions@, 0, fuel as nat),
                stats.rewrite_steps == added(old(stats).rewrite_steps, consumed),
                consumed + conditions_count(*automaton, t@, announcement.conditions@, k as int, fuel as nat) == total,
            decreases announcement.conditions@.len() - k,
        {
            let c = &announcement.conditions[k];
            if !c.semi_compressed_lhs.positions_valid(t) || !c.semi_compressed_rhs.positions_valid(t) {
                return Some(false);
            }
            let rhs = c.semi_compressed_rhs.evaluate(t);
            let lhs = c.semi_compressed_lhs.evaluate(t);
            let ghost cr = rule_count(*automaton, rhs@, fuel as nat);
            let ghost cl = rule_count(*automaton, lhs@, fuel as nat);
            let rhs_normal = match InnermostRewriter::rewrite_aux(automaton, &rhs, stats, fuel) {
                None => {
                    proof {
                        lemma_added_twice(old(stats).rewrite_steps, consumed, cr);
                    }
                    return None;
                },
                Some(r) => r,
            };
            proof {
                lemma_added_twice(old(stats).rewrite_steps, consumed, cr);
                consumed = consumed + cr;
            }
            let lhs_normal = match InnermostRewriter::rewrite_aux(automaton, &lhs, stats, fuel) {
                None => {
                    proof {
                        lemma_added_twice(old(stats).rewrite_steps, consumed, cl);
                    }
                    return None;
                },
                Some(l) => l,
            };
            proof {
                lemma_added_twice(old(stats).rewrite_steps, consumed, cl);
                consumed = consumed + cl;
            }
            let same = lhs_normal.equals(&rhs_normal);
            if (!same && c.equality) || (same && !c.equality) {
                return Some(false);
            }
            k = k + 1;
        }
        Some(true)
    }
}

/// A normal form that is reached with some fuel is reached with more fuel.
pub proof fn lemma_normal_form_more_fuel(a: SetAutomaton, t: Term, fuel: nat)
    requires
        normal_form(a, t, fuel) is Some,
    ensures
        normal_form(a, t, fuel + 1) == normal_form(a, t, fuel),
    decreases fuel, 0nat, 0int,
{
    let f = (fuel - 1) as nat;
    lemma_normal_forms_more_fuel(a, data_arguments(t), f);
    let args = normal_forms(a, data_arguments(t), f)->0;
    let u = rebuild(t, args);
    lemma_find_match_more_fuel(a, u, 0, f, f);
    if let Some(Some(rhs)) = find_match_from(a, u, 0, f, f) {
        lemma_normal_form_more_fuel(a, sctt_evaluate(rhs, u), f);
    }
}

/// The normal forms of terms that are reached with some fuel are reached
/// with more fuel.
proof fn lemma_normal_forms_more_fuel(a: SetAutomaton, ts: Seq<Term>, fuel: nat)
    requires
        normal_forms(a, ts, fuel) is Some,
    ensures
        normal_forms(a, ts, fuel + 1) == normal_forms(a, ts, fuel),
    decreases fuel, 1nat, ts.len(),
{
    if ts.len() > 0 {
        lemma_normal_forms_more_fuel(a, ts.drop_last(), fuel);
        lemma_normal_form_more_fuel(a, ts.last(), fuel);
    }
}

/// Whether conditions hold does not change with more fuel once it is known.
proof fn lemma_conditions_more_fuel(a: SetAutomaton, u: Term, cs: Seq<EMACondition>, k: int, fuel: nat)
    requires
        conditions_hold(a, u, cs, k, fuel) is Some,
    ensures
        conditions_hold(a, u, cs, k, fuel + 1) == conditions_hold(a, u, cs, k, fuel),
    decreases fuel, 2nat, cs.len() - k,
{
    if 0 <= k < cs.len() {
        let c = cs[k];
        if sctt_positions_valid(c.semi_compressed_lhs@, u) && sctt_positions_valid(c.semi_compressed_rhs@, u) {
            let ri = sctt_evaluate(c.semi_compressed_rhs@, u);
            let li = sctt_evaluate(c.semi_compressed_lhs@, u);
            lemma_normal_form_more_fuel(a, ri, fuel);
            lemma_normal_form_more_fuel(a, li, fuel);
            let r = normal_form(a, ri, fuel)->0;
            let l = normal_form(a, li, fuel)->0;
            if !((l != r && c.equality) || (l == r && !c.equality)) {
                lemma_conditions_more_fuel(a, u, cs, k + 1, fuel);
            }
        }
    }
}

/// The first applicable announcement does not change with more fuel once it
/// is known.
proof fn lemma_first_applicable_more_fuel(
    a: SetAutomaton,
    u: Term,
    anns: Seq<EnhancedMatchAnnouncement>,
    k: int,
    fuel: nat,
)
    requires
        first_applicable(a, u, anns, k, fuel) is Some,
    ensures
        first_applicable(a, u, anns, k, fuel + 1) == first_applicable(a, u, anns, k, fuel),
    decreases fuel, 3nat, anns.len() - k,
{
    if 0 <= k < anns.len() {
        let e = anns[k];
        if !classes_checkable(u, e.equivalence_classes@) || !crate::announcement::classes_hold(
            u,
            crate::announcement::classes_view(e.equivalence_classes@),
        ) || !sctt_positions_valid(e.semi_compressed_rhs@, u) {
            lemma_first_applicable_more_fuel(a, u, anns, k + 1, fuel);
        } else {
            lemma_conditions_more_fuel(a, u, e.conditions@, 0, fuel);
            if conditions_hold(a, u, e.conditions@, 0, fuel) == Some(false) {
                lemma_first_applicable_more_fuel(a, u, anns, k + 1, fuel);
            }
        }
    }
}

/// The outcome of a run of the automaton does not change with more steps and
/// more fuel once it is known.
proof fn lemma_find_match_more_fuel(a: SetAutomaton, u: Term, s: int, steps: nat, fuel: nat)
    requires
        find_match_from(a, u, s, steps, fuel) is Some,
    ensures
        find_match_from(a, u, s, steps + 1, fuel + 1) == find_match_from(a, u, s, steps, fuel),
    decreases fuel, 4nat, steps,
{
    if 0 <= s < a.states@.len() {
        let state = a.states@[s];
        if is_position(u, state.label@) {
            let symbol = data_function_symbol(subterm_at(u, state.label@)->0);
            if !symbol.variable {
                if let Some(j) = first_transition(state.transitions@, symbol.symbol, 0) {
                    let tr = state.transitions@[j];
                    lemma_first_applicable_more_fuel(a, u, tr.announcements@, 0, fuel);
                    if first_applicable(a, u, tr.announcements@, 0, fuel) == Some(None::<Sctt>)
                        && tr.destinations@.len() > 0 {
                        lemma_find_match_more_fuel(a, u, tr.destinations@[0].1 as int, (steps - 1) as nat, fuel);
                    }
                }
            }
        }
    }
}

/// Rebuilding a rebuilt term with its own arguments gives it back.
proof fn lemma_rebuild(t: Term, args: Seq<Term>)
    requires
        is_data_application(t) || args.len() == 0,
    ensures
        data_arguments(rebuild(t, args)) == args,
        rebuild(rebuild(t, args), args) == rebuild(t, args),
{
    if is_data_application(t) {
        let u = rebuild(t, args);
        assert(u.args.drop_first() =~= args);
        assert(rebuild(u, args).args =~= u.args);
    }
}

/// Rewriting gives a normal form: rewriting the result once more gives it
/// back.
pub proof fn lemma_normal_form_idempotent(a: SetAutomaton, t: Term, fuel: nat)
    requires
        normal_form(a, t, fuel) is Some,
    ensures
        normal_form(a, normal_form(a, t, fuel)->0, fuel) == normal_form(a, t, fuel),
    decreases fuel, 0nat, 0int,
{
    let f = (fuel - 1) as nat;
    let ts = data_arguments(t);
    let args = normal_forms(a, ts, f)->0;
    lemma_normal_forms_idempotent(a, ts, f);
    lemma_normal_forms_length(a, ts, f);
    lemma_rebuild(t, args);
    let u = rebuild(t, args);
    match find_match_from(a, u, 0, f, f) {
        Some(Some(rhs)) => {
            let instance = sctt_evaluate(rhs, u);
            lemma_normal_form_idempotent(a, instance, f);
            let r = normal_form(a, instance, f)->0;
            lemma_normal_form_more_fuel(a, r, f);
        },
        _ => {
            assert(normal_form(a, t, fuel) == Some(u));
        },
    }
}

/// Rewriting the normal forms of terms once more gives them back.
proof fn lemma_normal_forms_idempotent(a: SetAutomaton, ts: Seq<Term>, fuel: nat)
    requires
        normal_forms(a, ts, fuel) is Some,
    ensures
        normal_forms(a, normal_forms(a, ts, fuel)->0, fuel) == normal_forms(a, ts, fuel),
    decreases fuel, 1nat, ts.len(),
{
    if ts.len() > 0 {
        let rs = normal_forms(a, ts, fuel)->0;
        lemma_normal_forms_idempotent(a, ts.drop_last(), fuel);
        lemma_normal_form_idempotent(a, ts.last(), fuel);
        assert(rs.drop_last() =~= normal_forms(a, ts.drop_last(), fuel)->0);
        assert(rs.last() == normal_form(a, ts.last(), fuel)->0);
    }
}

/// The terms keep their number when rewritten.
proof fn lemma_normal_forms_length(a: SetAutomaton, ts: Seq<Term>, fuel: nat)
    requires
        normal_forms(a, ts, fuel) is Some,
    ensures
        normal_forms(a, ts, fuel)->0.len() == ts.len(),
    decreases ts.len(),
{
    if ts.len() > 0 {
        lemma_normal_forms_length(a, ts.drop_last(), fuel);
    }
}

/// Every subterm of `t` at depth `d` (the root at depth 0) has `d + 2 <=
/// fuel`: room for the nested rewrites of its arguments and one step of the
/// automaton.
pub open spec fn nested_within(t: Term, fuel: nat) -> bool
    decreases t,
{
    fuel >= 2 && forall|i: int| 0 <= i < t.args.len() ==> nested_within(#[trigger] t.args[i], (fuel - 1) as nat)
}

/// Terms that are their own normal forms are their own normal forms together.
proof fn lemma_normal_forms_fixed(a: SetAutomaton, ts: Seq<Term>, fuel: nat)
    requires
        forall|i: int| 0 <= i < ts.len() ==> normal_form(a, #[trigger] ts[i], fuel) == Some(ts[i]),
    ensures
        normal_forms(a, ts, fuel) == Some(ts),
    decreases ts.len(),
{
    if ts.len() > 0 {
        lemma_normal_forms_fixed(a, ts.drop_last(), fuel);
        assert(ts.drop_last().push(ts.last()) =~= ts);
    }
}

/// With an automaton whose initial state announces nothing and leads
/// nowhere, as for a specification without rules, rewriting a term within
/// the fuel gives it back.
pub proof fn lemma_inert_identity(a: SetAutomaton, t: Term, fuel: nat)
    requires
        inert(a),
        nested_within(t, fuel),
    ensures
        normal_form(a, t, fuel) == Some(t),
    decreases t,
{
    let f = (fuel - 1) as nat;
    let ts = data_arguments(t);
    assert forall|i: int| 0 <= i < ts.len() implies normal_form(a, #[trigger] ts[i], f) == Some(ts[i]) by {
        assert(ts[i] == t.args[i + 1]);
        assert(nested_within(t.args[i + 1], f));
        lemma_inert_identity(a, t.args[i + 1], f);
    }
    lemma_normal_forms_fixed(a, ts, f);
    if is_data_application(t) {
        assert(rebuild(t, ts).args =~= t.args);
    }
    assert(rebuild(t, ts) == t);
    if 0 < a.states@.len() {
        let state = a.states@[0];
        if is_position(t, state.label@) {
            let symbol = data_function_symbol(subterm_at(t, state.label@)->0);
            if !symbol.variable {
                if let Some(j) = first_transition(state.transitions@, symbol.symbol, 0) {
                    lemma_first_transition_index(state.transitions@, symbol.symbol, 0);
                    let tr = state.transitions@[j];
                    assert(tr.announcements@.len() == 0 && tr.destinations@.len() == 0);
                    assert(first_applicable(a, t, tr.announcements@, 0, f) == Some(None::<Sctt>));
                }
            }
        }
    }
    assert(f >= 1);
    assert(find_match_from(a, t, 0, f, f) == Some(None::<Sctt>));
}

/// The first transition on a symbol is a transition.
proof fn lemma_first_transition_index(ts: Seq<Transition>, f: usize, k: int)
    requires
        first_transition(ts, f, k) is Some,
    ensures
        0 <= first_transition(ts, f, k)->0 < ts.len(),
        ts[first_transition(ts, f, k)->0].symbol == f,
    decreases ts.len() - k,
{
    if 0 <= k < ts.len() && ts[k].symbol != f {
        lemma_first_transition_index(ts, f, k + 1);
    }
}

/// The announcement that [first_applicable] picks satisfies its
/// equivalence classes, and its right hand side is the one picked.
/// The conditions from index `k` on hold for `u` exactly as [conditions_hold]
/// finds: when it finds they hold, the normal forms of both sides of each of
/// them exist and are equal exactly when the condition asks for equality.
pub proof fn lemma_conditions_hold_all(a: SetAutomaton, u: Term, cs: Seq<EMACondition>, k: int, fuel: nat)
    requires
        0 <= k,
        conditions_hold(a, u, cs, k, fuel) == Some(true),
    ensures
        forall|i: int|
            k <= i < cs.len() ==> {
                let l = normal_form(a, sctt_evaluate((#[trigger] cs[i]).semi_compressed_lhs@, u), fuel);
                let r = normal_form(a, sctt_evaluate(cs[i].semi_compressed_rhs@, u), fuel);
                &&& sctt_positions_valid(cs[i].semi_compressed_lhs@, u)
                &&& sctt_positions_valid(cs[i].semi_compressed_rhs@, u)
                &&& l is Some
                &&& r is Some
                &&& (l->0 == r->0) == cs[i].equality
            },
    decreases cs.len() - k,
{
    if k < cs.len() {
        lemma_conditions_hold_all(a, u, cs, k + 1, fuel);
    }
}

/// A rule of `rules` whose left hand side matches `u` (with equal subterms
/// for a repeated variable), whose conditions are met with `fuel` (see
/// [conditions_met_with]), and whose right hand side compiled with a
/// variable map of its left hand side is `rhs`.
pub open spec fn fires_with(a: SetAutomaton, rules: Seq<RuleModel>, u: Term, rhs: Sctt, fuel: nat) -> bool {
    exists|k: int, m: Map<usize, Seq<usize>>|
        #![trigger rules[k], sctt_of(rules[k].rhs, m)]
        0 <= k < rules.len() && rule_applies(rules[k], u) && var_map_sound(rules[k].lhs, m) && variables_in(
            rules[k].lhs,
            m.dom(),
        ) && rhs == sctt_of(rules[k].rhs, m) && conditions_met_with(a, rules[k], u, m, fuel)
}

proof fn lemma_first_applicable_found(
    a: SetAutomaton,
    u: Term,
    anns: Seq<EnhancedMatchAnnouncement>,
    k: int,
    fuel: nat,
)
    requires
        first_applicable(a, u, anns, k, fuel) matches Some(Some(_)),
    ensures
        exists|i: int|
            0 <= i < anns.len() && classes_hold(u, classes_view((#[trigger] anns[i]).equivalence_classes@))
                && first_applicable(a, u, anns, k, fuel)->0->0 == anns[i].semi_compressed_rhs@ && conditions_hold(
                a,
                u,
                anns[i].conditions@,
                0,
                fuel,
            ) == Some(true),
    decreases anns.len() - k,
{
    let e = anns[k];
    if !classes_checkable(u, e.equivalence_classes@) || !classes_hold(u, classes_view(e.equivalence_classes@))
        || !sctt_positions_valid(e.semi_compressed_rhs@, u) {
        lemma_first_applicable_found(a, u, anns, k + 1, fuel);
    } else {
        match conditions_hold(a, u, e.conditions@, 0, fuel) {
            Some(false) => {
                lemma_first_applicable_found(a, u, anns, k + 1, fuel);
            },
            _ => {
                assert(anns[k] == e);
            },
        }
    }
}

/// The label of every state of a set automaton passes through data
/// arguments only.
proof fn lemma_label_data_position(
    states: Seq<State>,
    goal_sets: Seq<Seq<GoalModel>>,
    rules: Seq<RuleModel>,
    table: Seq<(usize, usize)>,
    apma: bool,
    s: int,
)
    requires
        automaton_of(states, goal_sets, rules, table, apma),
        0 <= s < states.len(),
    ensures
        data_position(states[s].label@),
{
    if s >= 1 {
        let gs = goal_sets[s];
        assert(is_label_of(gs, states[s].label@));
        let (k, j) = choose|k: int, j: int|
            #![trigger gs[k].obligations[j]]
            0 <= k < gs.len() && is_root_goal(gs[k]) && 0 <= j < gs[k].obligations.len()
                && gs[k].obligations[j].position == states[s].label@;
        assert(goals_in_shape(gs, rules_terms(rules)));
        assert(goal_in_shape(gs[k], rules_terms(rules)));
    }
}

/// The function symbol read in a supported term is a function symbol
/// without arguments.
proof fn lemma_read_symbol(u: Term, label: Seq<usize>)
    requires
        is_supported(u),
        data_position(label),
        is_position(u, label),
        !data_function_symbol(subterm_at(u, label)->0).variable,
    ensures
        data_function_symbol(subterm_at(u, label)->0) == symbol_term(
            data_function_symbol(subterm_at(u, label)->0).symbol,
        ),
{
    lemma_supported_below(u, label);
    let t = subterm_at(u, label)->0;
    if t.args.len() == 0 {
        assert(t.args =~= Seq::<Term>::empty());
    } else {
        assert(t.args[0].args =~= Seq::<Term>::empty());
    }
}

/// The facts about the goals of a state of an automaton that announces
/// matches at the root only.
proof fn lemma_state_facts(
    states: Seq<State>,
    goal_sets: Seq<Seq<GoalModel>>,
    rules: Seq<RuleModel>,
    table: Seq<(usize, usize)>,
    s: int,
)
    requires
        automaton_of(states, goal_sets, rules, table, true),
        0 <= s < states.len(),
    ensures
        goals_in_shape(goal_sets[s], rules_terms(rules)),
        all_root(goal_sets[s]),
        rules_of(goal_sets[s], rules),
        data_position(states[s].label@),
        states[s].transitions@.len() == table.len(),
        forall|j: int|
            0 <= j < table.len() ==> transition_of(
                #[trigger] states[s].transitions@[j],
                states[s].label@,
                goal_sets[s],
                table[j],
                rules,
                true,
                goal_sets,
            ),
        states.len() == goal_sets.len(),
        goal_sets.len() <= usize::MAX,
{
    lemma_label_data_position(states, goal_sets, rules, table, true, s);
}

/// The goals after a transition on the symbol read at the label, with
/// their reduced goals sorted, are sound for `u`, and the left hand side of
/// every completed goal matches `u`.
proof fn lemma_after_reading_sound(
    gs: Seq<GoalModel>,
    label: Seq<usize>,
    f: usize,
    reduced: Seq<GoalModel>,
    rules: Seq<RuleModel>,
    u: Term,
)
    requires
        goals_in_shape(gs, rules_terms(rules)),
        goals_sound(gs, u),
        all_root(gs),
        data_position(label),
        is_supported(u),
        symbols_agree(u, rules_terms(rules)),
        arities_consistent(rules_terms(rules)),
        arities_bounded(rules_terms(rules)),
        is_position(u, label),
        data_function_symbol(subterm_at(u, label)->0) == symbol_term(f),
        obligations_sorted_from(derivative_of(gs, label, f).2, reduced),
    ensures
        goals_sound(derivative_of(gs, label, f).1 + reduced, u),
        forall|c: int|
            0 <= c < derivative_of(gs, label, f).0.len() ==> matches_linearly(
                (#[trigger] derivative_of(gs, label, f).0[c]).announcement.rule.lhs,
                u,
            ),
{
    let ts = rules_terms(rules);
    let d = derivative_of(gs, label, f);
    lemma_arities_agree(gs, u, label, f, ts);
    lemma_derivative_sound(gs, label, f, u, ts);
    lemma_sorted_sound(d.2, reduced, u);
    lemma_derivative_root(gs, label, f);
    let ng = d.1 + reduced;
    assert forall|k: int| 0 <= k < ng.len() implies goal_sound(#[trigger] ng[k], u) by {
        if k < d.1.len() {
            assert(ng[k] == d.1[k]);
        } else {
            assert(ng[k] == reduced[k - d.1.len()]);
        }
    }
    assert forall|c: int| 0 <= c < d.0.len() implies matches_linearly((#[trigger] d.0[c]).announcement.rule.lhs, u) by {
        assert(is_root_goal(d.0[c]));
        assert(matches_at(d.0[c].announcement.rule.lhs, u, d.0[c].announcement.position));
        assert(subterm_at(u, Seq::<usize>::empty()) == Some(u));
    }
}

/// Every announcement of a transition on the symbol read at the label that
/// [first_applicable] picks belongs to a rule that applies to `u`.
proof fn lemma_transition_announcements_sound(
    a: SetAutomaton,
    tr: Transition,
    gs: Seq<GoalModel>,
    label: Seq<usize>,
    entry: (usize, usize),
    rules: Seq<RuleModel>,
    goal_sets: Seq<Seq<GoalModel>>,
    u: Term,
    fuel: nat,
)
    requires
        transition_of(tr, label, gs, entry, rules, true, goal_sets),
        goals_in_shape(gs, rules_terms(rules)),
        goals_sound(gs, u),
        all_root(gs),
        rules_of(gs, rules),
        data_position(label),
        is_supported(u),
        symbols_agree(u, rules_terms(rules)),
        arities_consistent(rules_terms(rules)),
        arities_bounded(rules_terms(rules)),
        is_position(u, label),
        data_function_symbol(subterm_at(u, label)->0) == symbol_term(entry.0),
    ensures
        first_applicable(a, u, tr.announcements@, 0, fuel) matches Some(Some(rhs)) ==> applies_with(rules, u, rhs)
            && fires_with(a, rules, u, rhs, fuel),
{
    let f = entry.0;
    let anns = tr.announcements@;
    let (outputs, dests) = choose|outputs: Seq<AnnouncementModel>, dests: Seq<(Seq<usize>, DestinationModel)>|
        derived(label, gs, entry.0, entry.1, rules, true, outputs, dests) && models(tr.announcements@).to_multiset()
            == outputs.to_multiset() && resolved_view(tr.destinations@) == resolved(dests, goal_sets) && drops_allowed(
            dests,
            goal_sets,
        );
    if first_applicable(a, u, anns, 0, fuel) is Some && first_applicable(a, u, anns, 0, fuel)->0 is Some {
        let rhs = first_applicable(a, u, anns, 0, fuel)->0->0;
        lemma_first_applicable_found(a, u, anns, 0, fuel);
        let i = choose|i: int|
            0 <= i < anns.len() && classes_hold(u, classes_view((#[trigger] anns[i]).equivalence_classes@)) && rhs
                == anns[i].semi_compressed_rhs@ && conditions_hold(a, u, anns[i].conditions@, 0, fuel) == Some(true);
        let e = anns[i];
        assert(is_compiled(e));
        assert(models(anns)[i] == e.announcement@);
        vstd::seq_lib::to_multiset_contains(models(anns), e.announcement@);
        vstd::seq_lib::to_multiset_contains(outputs, e.announcement@);
        assert(models(anns).contains(e.announcement@));
        assert(outputs.contains(e.announcement@));
        if f == 0 {
            assert(outputs.len() == 0);
        }
        let d = derivative_of(gs, label, f);
        let reduced = choose|reduced: Seq<GoalModel>|
            obligations_sorted_from(d.2, reduced) && destinations_of(d.1 + reduced, label, rules, entry.1 as nat, true, dests);
        lemma_after_reading_sound(gs, label, f, reduced, rules, u);
        let c = choose|c: int| 0 <= c < outputs.len() && outputs[c] == e.announcement@;
        assert(outputs[c] == d.0[c].announcement);
        assert(matches_linearly(d.0[c].announcement.rule.lhs, u));
        let r = e.announcement.rule@;
        lemma_derivative_rules(gs, label, f, rules);
        assert(rules.contains(d.0[c].announcement.rule));
        let kk = choose|kk: int| 0 <= kk < rules.len() && rules[kk] == r;
        let m = choose|m: Map<usize, Seq<usize>>| var_map_sound(r.lhs, m) && variables_in(r.lhs, m.dom()) && compiled_with(e, m);
        lemma_classes_apply(r, u, classes_view(e.equivalence_classes@));
        assert(rhs == sctt_of(rules[kk].rhs, m));
        lemma_conditions_hold_all(a, u, e.conditions@, 0, fuel);
        assert forall|ii: int| 0 <= ii < r.conditions.len() implies {
            let l = normal_form(a, instantiate((#[trigger] r.conditions[ii]).lhs, m, u), fuel);
            let rr = normal_form(a, instantiate(r.conditions[ii].rhs, m, u), fuel);
            &&& l is Some
            &&& rr is Some
            &&& (l->0 == rr->0) == r.conditions[ii].equality
        } by {
            let c = e.conditions@[ii];
            assert(c.semi_compressed_lhs@ == sctt_of(r.conditions[ii].lhs, m));
            assert(c.semi_compressed_rhs@ == sctt_of(r.conditions[ii].rhs, m));
            lemma_evaluate_sctt_of(r.conditions[ii].lhs, m, u);
            lemma_evaluate_sctt_of(r.conditions[ii].rhs, m, u);
        }
        assert(conditions_met_with(a, rules[kk], u, m, fuel));
    }
}

/// The first destination of a transition on the symbol read at the label
/// is a state whose goals are sound for `u`.
proof fn lemma_transition_destination_sound(
    tr: Transition,
    gs: Seq<GoalModel>,
    label: Seq<usize>,
    entry: (usize, usize),
    rules: Seq<RuleModel>,
    goal_sets: Seq<Seq<GoalModel>>,
    u: Term,
)
    requires
        transition_of(tr, label, gs, entry, rules, true, goal_sets),
        goals_in_shape(gs, rules_terms(rules)),
        goals_sound(gs, u),
        all_root(gs),
        data_position(label),
        is_supported(u),
        symbols_agree(u, rules_terms(rules)),
        arities_consistent(rules_terms(rules)),
        arities_bounded(rules_terms(rules)),
        is_position(u, label),
        data_function_symbol(subterm_at(u, label)->0) == symbol_term(entry.0),
        tr.destinations@.len() > 0,
        goal_sets.len() <= usize::MAX,
    ensures
        0 <= tr.destinations@[0].1 < goal_sets.len(),
        goals_sound(goal_sets[tr.destinations@[0].1 as int], u),
{
    let f = entry.0;
    let (outputs, dests) = choose|outputs: Seq<AnnouncementModel>, dests: Seq<(Seq<usize>, DestinationModel)>|
        derived(label, gs, entry.0, entry.1, rules, true, outputs, dests) && models(tr.announcements@).to_multiset()
            == outputs.to_multiset() && resolved_view(tr.destinations@) == resolved(dests, goal_sets) && drops_allowed(
            dests,
            goal_sets,
        );
    assert(resolved_view(tr.destinations@)[0] == (tr.destinations@[0].0@, tr.destinations@[0].1));
    if f == 0 {
        assert(dests.len() == 0);
        assert(resolved(dests, goal_sets).len() == 0);
    } else {
        let d = derivative_of(gs, label, f);
        let reduced = choose|reduced: Seq<GoalModel>|
            obligations_sorted_from(d.2, reduced) && destinations_of(d.1 + reduced, label, rules, entry.1 as nat, true, dests);
        lemma_after_reading_sound(gs, label, f, reduced, rules, u);
        let ng = d.1 + reduced;
        if ng.len() == 0 {
            assert(dests.len() == 0);
            assert(resolved(dests, goal_sets).len() == 0);
        } else {
            assert(dests == seq![(Seq::<usize>::empty(), DestinationModel::Goals(ng))]);
            assert(dests.drop_last().len() == 0);
            assert(resolved(dests.drop_last(), goal_sets).len() == 0);
            if has_state(goal_sets, ng) {
                let idx = choose|i: int| 0 <= i < goal_sets.len() && same_goal_set(#[trigger] goal_sets[i], ng);
                assert(resolved(dests, goal_sets)[0].1 == idx as usize);
                assert(tr.destinations@[0].1 == idx);
                assert(same_goal_set(ng, goal_sets[idx]));
                lemma_same_set_sound(ng, goal_sets[idx], u);
            } else {
                assert(resolved(dests, goal_sets).len() == 0);
            }
        }
    }
}

/// Every match that the automaton finds for `u`, from a state whose goals
/// are sound for `u`, is the compiled right hand side of a rule that applies
/// to `u`.
proof fn lemma_find_match_sound(
    a: SetAutomaton,
    goal_sets: Seq<Seq<GoalModel>>,
    rules: Seq<RuleModel>,
    table: Seq<(usize, usize)>,
    u: Term,
    s: int,
    steps: nat,
    fuel: nat,
)
    requires
        automaton_of(a.states@, goal_sets, rules, table, true),
        0 <= s < a.states@.len() ==> goals_sound(goal_sets[s], u),
        is_supported(u),
        symbols_agree(u, rules_terms(rules)),
        arities_consistent(rules_terms(rules)),
        arities_bounded(rules_terms(rules)),
    ensures
        find_match_from(a, u, s, steps, fuel) matches Some(Some(rhs)) ==> applies_with(rules, u, rhs)
            && fires_with(a, rules, u, rhs, fuel),
    decreases steps,
{
    if steps > 0 && 0 <= s < a.states@.len() {
        let state = a.states@[s];
        let label = state.label@;
        let gs = goal_sets[s];
        lemma_state_facts(a.states@, goal_sets, rules, table, s);
        if is_position(u, label) {
            let symbol = data_function_symbol(subterm_at(u, label)->0);
            if !symbol.variable {
                let f = symbol.symbol;
                lemma_read_symbol(u, label);
                if first_transition(state.transitions@, f, 0) is Some {
                    let j = first_transition(state.transitions@, f, 0)->0;
                    lemma_first_transition_index(state.transitions@, f, 0);
                    let tr = state.transitions@[j];
                    assert(transition_of(tr, label, gs, table[j], rules, true, goal_sets));
                    assert(tr.symbol == table[j].0);
                    lemma_transition_announcements_sound(a, tr, gs, label, table[j], rules, goal_sets, u, fuel);
                    if tr.destinations@.len() > 0 {
                        lemma_transition_destination_sound(tr, gs, label, table[j], rules, goal_sets, u);
                        lemma_find_match_sound(
                            a,
                            goal_sets,
                            rules,
                            table,
                            u,
                            tr.destinations@[0].1 as int,
                            (steps - 1) as nat,
                            fuel,
                        );
                    }
                }
            }
        }
    }
}

/// `t` with its first `k` data arguments replaced by those of `ys`.
spec fn partly_rebuilt(t: Term, ys: Seq<Term>, k: int) -> Term {
    Term {
        symbol: DATA_APPLICATION,
        variable: false,
        args: seq![t.args[0]] + ys.take(k) + data_arguments(t).skip(k),
    }
}

/// Replacing the first `k` data arguments of an application by terms that
/// they reach is reached from it.
proof fn lemma_reaches_partly_rebuilt(rules: Seq<RuleModel>, judge: ConditionJudge, t: Term, ys: Seq<Term>, k: int)
    requires
        is_data_application(t),
        well_sized(t),
        ys.len() == data_arguments(t).len(),
        0 <= k <= ys.len(),
        forall|i: int| 0 <= i < ys.len() ==> reaches(rules, judge, data_arguments(t)[i], #[trigger] ys[i]),
    ensures
        reaches(rules, judge, t, partly_rebuilt(t, ys, k)),
    decreases k,
{
    let xs = data_arguments(t);
    if k == 0 {
        assert(partly_rebuilt(t, ys, 0).args =~= t.args);
        lemma_reaches_refl(rules, judge, t);
    } else {
        lemma_reaches_partly_rebuilt(rules, judge, t, ys, k - 1);
        let z = partly_rebuilt(t, ys, k - 1);
        assert(t.args.len() <= usize::MAX);
        let pos = seq![(k + 1) as usize];
        assert(pos[0] == k + 1);
        assert(z.args.len() == t.args.len());
        assert(z.args[k] == xs[k - 1]);
        assert(pos.drop_first() =~= Seq::<usize>::empty());
        assert(data_position(pos));
        assert(subterm_at(z, pos) == subterm_at(z.args[k], Seq::<usize>::empty()));
        assert(subterm_at(z, pos) == Some(xs[k - 1]));
        assert(replace_at(z, pos, xs[k - 1]) == Term {
            symbol: z.symbol,
            variable: z.variable,
            args: z.args.update(k, replace_at(z.args[k], Seq::<usize>::empty(), xs[k - 1])),
        });
        assert(replace_at(z, pos, xs[k - 1]).args =~= z.args);
        assert(replace_at(z, pos, ys[k - 1]) == Term {
            symbol: z.symbol,
            variable: z.variable,
            args: z.args.update(k, replace_at(z.args[k], Seq::<usize>::empty(), ys[k - 1])),
        });
        let w = partly_rebuilt(t, ys, k);
        assert forall|i: int| 0 <= i < w.args.len() implies #[trigger] w.args[i] == z.args.update(k, ys[k - 1])[i] by {
            if i == 0 {
            } else if i < k {
                assert(w.args[i] == ys.take(k)[i - 1]);
                assert(z.args[i] == ys.take(k - 1)[i - 1]);
            } else if i == k {
                assert(w.args[i] == ys.take(k)[k - 1]);
            } else {
                assert(w.args[i] == xs.skip(k)[i - 1 - k]);
                assert(z.args[i] == xs.skip(k - 1)[i - k]);
            }
        }
        assert(replace_at(z, pos, ys[k - 1]).args =~= partly_rebuilt(t, ys, k).args);
        lemma_reaches_in_context(rules, judge, z, pos, xs[k - 1], ys[k - 1]);
        lemma_reaches_trans(rules, judge, t, z, partly_rebuilt(t, ys, k));
    }
}

/// Rebuilding a term with terms that its data arguments reach is reached
/// from it.
proof fn lemma_reaches_rebuild(rules: Seq<RuleModel>, judge: ConditionJudge, t: Term, ys: Seq<Term>)
    requires
        well_sized(t),
        ys.len() == data_arguments(t).len(),
        forall|i: int| 0 <= i < ys.len() ==> reaches(rules, judge, data_arguments(t)[i], #[trigger] ys[i]),
    ensures
        reaches(rules, judge, t, rebuild(t, ys)),
{
    if is_data_application(t) {
        lemma_reaches_partly_rebuilt(rules, judge, t, ys, ys.len() as int);
        assert(partly_rebuilt(t, ys, ys.len() as int).args =~= rebuild(t, ys).args);
    } else {
        lemma_reaches_refl(rules, judge, t);
    }
}

/// The data arguments of a supported, well sized term whose symbols agree
/// with `ts` are so too.
proof fn lemma_arguments_kept(t: Term, ts: Seq<Term>)
    requires
        is_supported(t),
        well_sized(t),
        symbols_agree(t, ts),
    ensures
        forall|i: int|
            0 <= i < data_arguments(t).len() ==> is_supported(#[trigger] data_arguments(t)[i]) && well_sized(
                data_arguments(t)[i],
            ) && symbols_agree(data_arguments(t)[i], ts),
{
    assert forall|i: int| 0 <= i < data_arguments(t).len() implies is_supported(#[trigger] data_arguments(t)[i])
        && well_sized(data_arguments(t)[i]) && symbols_agree(data_arguments(t)[i], ts) by {
        assert(data_arguments(t)[i] == t.args[i + 1]);
        assert forall|f: usize, n: nat| #[trigger] symbol_occurs(t.args[i + 1], f, n) && occurs_somewhere(ts, f) implies occurs_in(
            ts,
            f,
            n,
        ) by {
            assert(symbol_occurs(t, f, n));
        }
    }
}

/// Rebuilding a supported, well sized term whose symbols agree with `ts`
/// with as many such arguments gives such a term.
proof fn lemma_rebuild_kept(t: Term, ys: Seq<Term>, ts: Seq<Term>)
    requires
        is_supported(t),
        well_sized(t),
        symbols_agree(t, ts),
        ys.len() == data_arguments(t).len(),
        forall|i: int|
            0 <= i < ys.len() ==> is_supported(#[trigger] ys[i]) && well_sized(ys[i]) && symbols_agree(ys[i], ts),
    ensures
        is_supported(rebuild(t, ys)),
        well_sized(rebuild(t, ys)),
        symbols_agree(rebuild(t, ys), ts),
{
    if is_data_application(t) {
        let u = rebuild(t, ys);
        assert(u.args[0] == t.args[0]);
        assert forall|i: int| 1 <= i < u.args.len() implies is_supported(#[trigger] u.args[i]) && well_sized(u.args[i]) by {
            assert(u.args[i] == ys[i - 1]);
        }
        assert(well_sized(t.args[0]));
        assert forall|f: usize, n: nat| #[trigger] symbol_occurs(u, f, n) && occurs_somewhere(ts, f) implies occurs_in(ts, f, n) by {
            if u.args[0].symbol == f && n == u.args.len() - 1 {
                assert(symbol_occurs(t, f, n));
            } else {
                let i = choose|i: int| 1 <= i < u.args.len() && symbol_occurs(#[trigger] u.args[i], f, n);
                assert(u.args[i] == ys[i - 1]);
            }
        }
    }
}

/// The rules are supported and well formed, their right hand sides are
/// well sized, and their function symbols are used with one arity each.
pub open spec fn rules_fit(rules: Seq<RuleModel>) -> bool {
    &&& forall|k: int| 0 <= k < rules.len() ==> rule_supported(#[trigger] rules[k]) && rule_well_formed(rules[k]) && well_sized(rules[k].rhs)
    &&& arities_consistent(rules_terms(rules))
    &&& arities_bounded(rules_terms(rules))
}

/// The normal form that the innermost rewriter computes for a term is
/// reached from it by rewrite steps with the rules, each of a rule whose
/// conditions hold, judged by the normal forms of this rewriter (see
/// [judged_by]), when the term is a
/// supported data expression that uses each function symbol of the rules
/// with its arity there; the normal form is such a term too.
pub proof fn lemma_normal_form_reached(
    a: SetAutomaton,
    goal_sets: Seq<Seq<GoalModel>>,
    rules: Seq<RuleModel>,
    table: Seq<(usize, usize)>,
    t: Term,
    fuel: nat,
)
    requires
        automaton_of(a.states@, goal_sets, rules, table, true),
        rules_fit(rules),
        is_supported(t),
        well_sized(t),
        symbols_agree(t, rules_terms(rules)),
    ensures
        normal_form(a, t, fuel) matches Some(r) ==> reaches(rules, judged_by(a), t, r) && is_supported(r) && well_sized(r)
            && symbols_agree(r, rules_terms(rules)),
    decreases fuel, 0nat, 0nat,
{
    let ts = rules_terms(rules);
    if fuel > 0 {
        let f = (fuel - 1) as nat;
        let xs = data_arguments(t);
        lemma_arguments_kept(t, ts);
        lemma_normal_forms_reached(a, goal_sets, rules, table, xs, f);
        if let Some(args) = normal_forms(a, xs, f) {
            let u = rebuild(t, args);
            lemma_reaches_rebuild(rules, judged_by(a), t, args);
            lemma_rebuild_kept(t, args, ts);
            assert(goal_sets[0] == crate::automaton::fresh_goals(rules, Seq::empty()));
            lemma_fresh_root_sound(rules, u);
            lemma_find_match_sound(a, goal_sets, rules, table, u, 0, f, f);
            match find_match_from(a, u, 0, f, f) {
                Some(Some(rhs)) => {
                    let (k, m) = choose|k: int, m: Map<usize, Seq<usize>>|
                        #![trigger rules[k], sctt_of(rules[k].rhs, m)]
                        0 <= k < rules.len() && rule_applies(rules[k], u) && var_map_sound(rules[k].lhs, m)
                            && variables_in(rules[k].lhs, m.dom()) && rhs == sctt_of(rules[k].rhs, m)
                            && conditions_met_with(a, rules[k], u, m, f);
                    let r = rules[k];
                    lemma_evaluate_sctt_of(r.rhs, m, u);
                    let inst = instantiate(r.rhs, m, u);
                    assert(subterm_at(u, Seq::<usize>::empty()) == Some(u));
                    assert(replace_at(u, Seq::<usize>::empty(), inst) == inst);
                    assert(data_position(Seq::<usize>::empty()));
                    assert(judged_by(a)(r, m, u));
                    assert(rewrite_step(rules, judged_by(a), u, inst));
                    lemma_reaches_step(rules, judged_by(a), u, inst);
                    lemma_reaches_trans(rules, judged_by(a), t, u, inst);
                    assert(rule_supported(r) && rule_well_formed(r) && well_sized(r.rhs));
                    lemma_rules_rhs_symbols(rules);
                    lemma_rule_instance_supported(r, m, u, ts);
                    lemma_normal_form_reached(a, goal_sets, rules, table, inst, f);
                    if let Some(n) = normal_form(a, inst, f) {
                        lemma_reaches_trans(rules, judged_by(a), t, inst, n);
                    }
                },
                Some(None) => {},
                None => {},
            }
        }
    }
}

/// The normal forms of terms are reached from them, see
/// [lemma_normal_form_reached].
proof fn lemma_normal_forms_reached(
    a: SetAutomaton,
    goal_sets: Seq<Seq<GoalModel>>,
    rules: Seq<RuleModel>,
    table: Seq<(usize, usize)>,
    xs: Seq<Term>,
    fuel: nat,
)
    requires
        automaton_of(a.states@, goal_sets, rules, table, true),
        rules_fit(rules),
        forall|i: int|
            0 <= i < xs.len() ==> is_supported(#[trigger] xs[i]) && well_sized(xs[i]) && symbols_agree(
                xs[i],
                rules_terms(rules),
            ),
    ensures
        normal_forms(a, xs, fuel) matches Some(rs) ==> rs.len() == xs.len() && forall|i: int|
            0 <= i < xs.len() ==> reaches(rules, judged_by(a), xs[i], #[trigger] rs[i]) && is_supported(rs[i]) && well_sized(rs[i])
                && symbols_agree(rs[i], rules_terms(rules)),
    decreases fuel, 1nat, xs.len(),
{
    if xs.len() > 0 {
        let rest = xs.drop_last();
        assert forall|i: int| 0 <= i < rest.len() implies is_supported(#[trigger] rest[i]) && well_sized(rest[i])
            && symbols_agree(rest[i], rules_terms(rules)) by {
            assert(rest[i] == xs[i]);
        }
        lemma_normal_forms_reached(a, goal_sets, rules, table, rest, fuel);
        assert(xs.last() == xs[xs.len() - 1]);
        lemma_normal_form_reached(a, goal_sets, rules, table, xs.last(), fuel);
        if let Some(rs) = normal_forms(a, xs, fuel) {
            let rs0 = normal_forms(a, rest, fuel)->0;
            let r = normal_form(a, xs.last(), fuel)->0;
            assert(rs == rs0.push(r));
            assert forall|i: int| 0 <= i < xs.len() implies reaches(rules, judged_by(a), xs[i], #[trigger] rs[i]) && is_supported(rs[i])
                && well_sized(rs[i]) && symbols_agree(rs[i], rules_terms(rules)) by {
                if i < rest.len() {
                    assert(rest[i] == xs[i]);
                    assert(rs[i] == rs0[i]);
                }
            }
        }
    }
}

/// The supported rules of rules whose right hand sides are well sized are
/// supported, and their right hand sides are well sized.
proof fn lemma_supported_rules_kept(rs: Seq<RuleModel>)
    requires
        forall|k: int| 0 <= k < rs.len() ==> well_sized(#[trigger] rs[k].rhs),
    ensures
        forall|k: int|
            0 <= k < supported_rules(rs).len() ==> rule_supported(#[trigger] supported_rules(rs)[k]) && well_sized(
                supported_rules(rs)[k].rhs,
            ),
    decreases rs.len(),
{
    if rs.len() > 0 {
        let rest = rs.drop_last();
        assert forall|k: int| 0 <= k < rest.len() implies well_sized(#[trigger] rest[k].rhs) by {
            assert(rest[k] == rs[k]);
        }
        lemma_supported_rules_kept(rest);
        assert(well_sized(rs[rs.len() - 1].rhs));
        let a = supported_rules(rest);
        let b = supported_rules(rs);
        assert forall|k: int| 0 <= k < b.len() implies rule_supported(#[trigger] b[k]) && well_sized(b[k].rhs) by {
            if k < a.len() {
                assert(b[k] == a[k]);
            } else {
                assert(b[k] == rs.last());
            }
        }
    }
}

/// The innermost rewriter of a specification only rewrites: the normal form
/// that it computes for a supported data expression that uses each function
/// symbol of the supported rules with its arity there is reached from that
/// expression by rewrite steps with the supported rules, each applying a rule
/// only where all its conditions hold (judged by the normal forms of this
/// rewriter).
pub proof fn lemma_innermost_rewrites(
    spec: &RewriteSpecification,
    rewriter: &InnermostRewriter,
    t: Term,
    fuel: nat,
)
    requires
        rules_usable(rules_view(spec.rewrite_rules@)),
        exists|table: Seq<(usize, usize)>, goal_sets: Seq<Seq<GoalModel>>|
            automaton_of(
                rewriter.apma.states@,
                goal_sets,
                supported_rules(rules_view(spec.rewrite_rules@)),
                table,
                true,
            ),
        is_supported(t),
        well_sized(t),
        symbols_agree(t, rules_terms(supported_rules(rules_view(spec.rewrite_rules@)))),
    ensures
        normal_form(rewriter.apma, t, fuel) matches Some(r) ==> reaches(
            supported_rules(rules_view(spec.rewrite_rules@)),
            judged_by(rewriter.apma),
            t,
            r,
        ),
{
    let rs = rules_view(spec.rewrite_rules@);
    let rules = supported_rules(rs);
    let (table, goal_sets) = choose|table: Seq<(usize, usize)>, goal_sets: Seq<Seq<GoalModel>>|
        automaton_of(rewriter.apma.states@, goal_sets, rules, table, true);
    assert forall|k: int| 0 <= k < rs.len() implies well_sized(#[trigger] rs[k].rhs) by {
        assert(rs[k] == spec.rewrite_rules@[k]@);
        spec.rewrite_rules@[k].rhs.lemma_well_sized();
    }
    lemma_supported_rules_kept(rs);
    assert(rules_fit(rules));
    lemma_normal_form_reached(rewriter.apma, goal_sets, rules, table, t, fuel);
}

/// With the variable map `m` of the left hand side of `r` and `fuel`, the
/// normal forms that the rewriter computes for both sides of each condition
/// of `r`, instantiated from `u`, exist, and they are equal exactly when the
/// condition asks for equality.
pub open spec fn conditions_met_with(a: SetAutomaton, r: RuleModel, u: Term, m: Map<usize, Seq<usize>>, fuel: nat) -> bool {
    forall|i: int|
        0 <= i < r.conditions.len() ==> {
            let l = normal_form(a, instantiate((#[trigger] r.conditions[i]).lhs, m, u), fuel);
            let rr = normal_form(a, instantiate(r.conditions[i].rhs, m, u), fuel);
            &&& l is Some
            &&& rr is Some
            &&& (l->0 == rr->0) == r.conditions[i].equality
        }
}

/// The conditions of `r` hold for `u` under the rewriter's own normal forms:
/// for every variable map of its left hand side they are met with some fuel.
pub open spec fn conditions_met(a: SetAutomaton, r: RuleModel, u: Term) -> bool {
    forall|m: Map<usize, Seq<usize>>|
        var_map_sound(r.lhs, m) && variables_in(r.lhs, m.dom()) ==> exists|f: nat| #[trigger] conditions_met_with(a, r, u, m, f)
}

/// The conditions of a rule are judged by the normal forms of the rewriter of
/// `a`: they are met, with the variable map, with some fuel (see
/// [conditions_met_with]).
pub open spec fn judged_by(a: SetAutomaton) -> ConditionJudge {
    |r: RuleModel, m: Map<usize, Seq<usize>>, u: Term| exists|f: nat| #[trigger] conditions_met_with(a, r, u, m, f)
}

/// The rule fires on `u`: its left hand side matches (with equal subterms
/// for a repeated variable) and its conditions hold.
pub open spec fn fires(a: SetAutomaton, r: RuleModel, u: Term) -> bool {
    rule_applies(r, u) && conditions_met(a, r, u)
}

/// No rule fires on any subterm of `t` (through data arguments): `t` is a
/// normal form of the rules, conditions judged by the rewriter of `a`.
pub open spec fn irreducible_under(a: SetAutomaton, rules: Seq<RuleModel>, t: Term) -> bool {
    forall|p: Seq<usize>, k: int|
        #![trigger subterm_at(t, p), rules[k]]
        data_position(p) && subterm_at(t, p) is Some && 0 <= k < rules.len() ==> !fires(a, rules[k], subterm_at(t, p)->0)
}

/// For each rule that fires on `u` some goal of that rule holds for `u`.
pub open spec fn goals_complete_under(a: SetAutomaton, gs: Seq<GoalModel>, rules: Seq<RuleModel>, u: Term) -> bool {
    forall|k: int|
        0 <= k < rules.len() && fires(a, #[trigger] rules[k], u) ==> exists|c: int|
            0 <= c < gs.len() && (#[trigger] gs[c]).announcement.rule == rules[k] && goal_holds(gs[c], u)
}

/// Both sides of each condition of each rule have a size.
pub open spec fn conditions_well_sized(rules: Seq<RuleModel>) -> bool {
    forall|k: int, i: int|
        0 <= k < rules.len() && 0 <= i < rules[k].conditions.len() ==> well_sized(
            (#[trigger] rules[k].conditions[i]).lhs,
        ) && well_sized(rules[k].conditions[i].rhs)
}

/// A normal form found with some fuel is found with any more fuel.
pub proof fn lemma_normal_form_fuel_le(a: SetAutomaton, t: Term, f: nat, g: nat)
    requires
        normal_form(a, t, f) is Some,
        f <= g,
    ensures
        normal_form(a, t, g) == normal_form(a, t, f),
    decreases g - f,
{
    if f < g {
        lemma_normal_form_more_fuel(a, t, f);
        lemma_normal_form_fuel_le(a, t, f + 1, g);
    }
}

/// The conditions of the compiled announcement of a rule that fires on `u`
/// are not found to fail, whatever the fuel: the rewriter either runs out of
/// fuel or finds them to hold.
proof fn lemma_met_conditions_hold(
    a: SetAutomaton,
    r: RuleModel,
    e: EnhancedMatchAnnouncement,
    u: Term,
    k: int,
    fuel: nat,
)
    requires
        is_compiled(e),
        e.announcement.rule@ == r,
        fires(a, r, u),
        rule_well_formed(r),
        is_supported(r.lhs),
        forall|i: int| 0 <= i < r.conditions.len() ==> well_sized((#[trigger] r.conditions[i]).lhs) && well_sized(
            r.conditions[i].rhs,
        ),
        0 <= k,
    ensures
        conditions_hold(a, u, e.conditions@, k, fuel) != Some(false),
    decreases e.conditions@.len() - k,
{
    let cs = e.conditions@;
    if k < cs.len() {
        let m = choose|m: Map<usize, Seq<usize>>| var_map_sound(r.lhs, m) && variables_in(r.lhs, m.dom()) && compiled_with(e, m);
        assert(compiled_with(e, m));
        let f2 = choose|f: nat| #[trigger] conditions_met_with(a, r, u, m, f);
        assert(conditions_met_with(a, r, u, m, f2));
        let c = cs[k];
        let rc = r.conditions[k];
        assert(c.semi_compressed_lhs@ == sctt_of(rc.lhs, m));
        assert(c.semi_compressed_rhs@ == sctt_of(rc.rhs, m));
        assert(c.equality == rc.equality);
        assert forall|v: usize| #[trigger] m.contains_key(v) implies is_position(u, m[v]) by {
            lemma_variable_at_data_position(r.lhs, m[v]);
            lemma_matched_position(r.lhs, u, m[v]);
        }
        lemma_variables_bound(rc.lhs, r.lhs, m.dom());
        lemma_variables_bound(rc.rhs, r.lhs, m.dom());
        lemma_sctt_of_positions_valid(rc.lhs, m, u);
        lemma_sctt_of_positions_valid(rc.rhs, m, u);
        lemma_evaluate_sctt_of(rc.lhs, m, u);
        lemma_evaluate_sctt_of(rc.rhs, m, u);
        let li = instantiate(rc.lhs, m, u);
        let ri = instantiate(rc.rhs, m, u);
        if normal_form(a, ri, fuel) is Some && normal_form(a, li, fuel) is Some {
            let g = if fuel < f2 { f2 } else { fuel };
            lemma_normal_form_fuel_le(a, ri, fuel, g);
            lemma_normal_form_fuel_le(a, li, fuel, g);
            lemma_normal_form_fuel_le(a, ri, f2, g);
            lemma_normal_form_fuel_le(a, li, f2, g);
            lemma_met_conditions_hold(a, r, e, u, k + 1, fuel);
        }
    }
}

/// When [first_applicable] finds no announcement, the conditions of each of
/// those from index `k` on that passes the other checks fail.
proof fn lemma_first_applicable_none(
    a: SetAutomaton,
    u: Term,
    anns: Seq<EnhancedMatchAnnouncement>,
    k: int,
    fuel: nat,
)
    requires
        first_applicable(a, u, anns, k, fuel) == Some(None::<Sctt>),
        0 <= k,
    ensures
        forall|i: int|
            k <= i < anns.len() && classes_checkable(u, (#[trigger] anns[i]).equivalence_classes@) && classes_hold(
                u,
                classes_view(anns[i].equivalence_classes@),
            ) && sctt_positions_valid(anns[i].semi_compressed_rhs@, u) ==> conditions_hold(
                a,
                u,
                anns[i].conditions@,
                0,
                fuel,
            ) == Some(false),
    decreases anns.len() - k,
{
    if k < anns.len() {
        lemma_first_applicable_none(a, u, anns, k + 1, fuel);
    }
}

/// The announcement of a rule that applies to `u` passes the checks of
/// [first_applicable] before its conditions.
proof fn lemma_announcement_checks(r: RuleModel, e: EnhancedMatchAnnouncement, u: Term)
    requires
        is_compiled(e),
        e.announcement.rule@ == r,
        rule_applies(r, u),
        is_supported(r.lhs),
        well_sized(r.rhs),
        variables_bound(r.rhs, r.lhs),
    ensures
        classes_checkable(u, e.equivalence_classes@),
        classes_hold(u, classes_view(e.equivalence_classes@)),
        sctt_positions_valid(e.semi_compressed_rhs@, u),
{
    let cs = classes_view(e.equivalence_classes@);
    let eqs = e.equivalence_classes@;
    assert(equivalence_classes_of(r.lhs, cs));
    assert forall|k: int| 0 <= k < eqs.len() implies (#[trigger] eqs[k])@.positions.len() >= 2 && forall|j: int|
        0 <= j < eqs[k]@.positions.len() ==> is_position(u, #[trigger] eqs[k]@.positions[j]) by {
        assert(cs[k] == eqs[k]@);
        assert(class_sound(r.lhs, cs[k]));
        assert forall|j: int| 0 <= j < eqs[k]@.positions.len() implies is_position(u, #[trigger] eqs[k]@.positions[j]) by {
            let q = cs[k].positions[j];
            assert(subterm_at(r.lhs, q) == Some(cs[k].variable));
            lemma_variable_at_data_position(r.lhs, q);
            lemma_matched_position(r.lhs, u, q);
        }
    }
    assert forall|k: int, j: int|
        #![trigger cs[k].positions[j]]
        0 <= k < cs.len() && 0 <= j < cs[k].positions.len() implies subterm_at(u, cs[k].positions[0]) == subterm_at(
        u,
        cs[k].positions[j],
    ) by {
        assert(class_sound(r.lhs, cs[k]));
        assert(subterm_at(r.lhs, cs[k].positions[0]) == Some(cs[k].variable));
        assert(subterm_at(r.lhs, cs[k].positions[j]) == Some(cs[k].variable));
    }
    let m = choose|m: Map<usize, Seq<usize>>| var_map_sound(r.lhs, m) && variables_in(r.lhs, m.dom()) && compiled_with(e, m);
    lemma_variables_bound(r.rhs, r.lhs, m.dom());
    assert forall|v: usize| #[trigger] m.contains_key(v) implies is_position(u, m[v]) by {
        lemma_variable_at_data_position(r.lhs, m[v]);
        lemma_matched_position(r.lhs, u, m[v]);
    }
    lemma_sctt_of_positions_valid(r.rhs, m, u);
}

/// A transition on `f` is found once some transition is on `f`.
proof fn lemma_first_transition_exists(ts: Seq<Transition>, f: usize, k: int, j: int)
    requires
        0 <= k <= j < ts.len(),
        ts[j].symbol == f,
    ensures
        first_transition(ts, f, k) is Some,
    decreases j - k,
{
    if ts[k].symbol != f {
        lemma_first_transition_exists(ts, f, k + 1, j);
    }
}

/// A rule that fires on `u` and has a goal that holds for `u` keeps such a
/// goal after a transition that announces no applicable match.
proof fn lemma_applicable_goal_kept(
    a: SetAutomaton,
    u: Term,
    fuel: nat,
    anns: Seq<EnhancedMatchAnnouncement>,
    gs: Seq<GoalModel>,
    label: Seq<usize>,
    f: usize,
    outputs: Seq<AnnouncementModel>,
    reduced: Seq<GoalModel>,
    rules: Seq<RuleModel>,
    k: int,
)
    requires
        goals_in_shape(gs, rules_terms(rules)),
        arities_bounded(rules_terms(rules)),
        rules_fit(rules),
        subterm_at(u, label) is Some,
        data_function_symbol(subterm_at(u, label)->0) == symbol_term(f),
        outputs == goal_announcements(derivative_of(gs, label, f).0),
        models(anns).to_multiset() == outputs.to_multiset(),
        forall|i: int| 0 <= i < anns.len() ==> is_compiled(#[trigger] anns[i]),
        first_applicable(a, u, anns, 0, fuel) == Some(None::<Sctt>),
        obligations_sorted_from(derivative_of(gs, label, f).2, reduced),
        0 <= k < rules.len(),
        fires(a, rules[k], u),
        conditions_well_sized(rules),
        exists|c: int| 0 <= c < gs.len() && (#[trigger] gs[c]).announcement.rule == rules[k] && goal_holds(gs[c], u),
    ensures
        exists|c: int|
            0 <= c < (derivative_of(gs, label, f).1 + reduced).len() && (#[trigger] (derivative_of(gs, label, f).1
                + reduced)[c]).announcement.rule == rules[k] && goal_holds((derivative_of(gs, label, f).1 + reduced)[c], u),
{
    let d = derivative_of(gs, label, f);
    let ng = d.1 + reduced;
    let c0 = choose|c: int| 0 <= c < gs.len() && (#[trigger] gs[c]).announcement.rule == rules[k] && goal_holds(gs[c], u);
    let g = gs[c0];
    lemma_derivative_keeps(gs, label, f, u, rules_terms(rules));
    lemma_first_applicable_none(a, u, anns, 0, fuel);
    if d.0.contains(g) {
        let c = choose|c: int| 0 <= c < d.0.len() && d.0[c] == g;
        assert(outputs[c] == g.announcement);
        assert(outputs.contains(g.announcement));
        vstd::seq_lib::to_multiset_contains(outputs, g.announcement);
        vstd::seq_lib::to_multiset_contains(models(anns), g.announcement);
        assert(models(anns).contains(g.announcement));
        let i = choose|i: int| 0 <= i < models(anns).len() && models(anns)[i] == g.announcement;
        assert(models(anns)[i] == anns[i].announcement@);
        let r = rules[k];
        assert(rule_supported(r) && rule_well_formed(r) && well_sized(r.rhs));
        lemma_announcement_checks(r, anns[i], u);
        assert forall|ii: int| 0 <= ii < r.conditions.len() implies well_sized((#[trigger] r.conditions[ii]).lhs)
            && well_sized(r.conditions[ii].rhs) by {
            assert(well_sized(rules[k].conditions[ii].lhs));
        }
        lemma_met_conditions_hold(a, r, anns[i], u, 0, fuel);
        assert(false);
    } else if exists|c: int|
        0 <= c < d.1.len() && (#[trigger] d.1[c]).announcement.rule == g.announcement.rule && goal_holds(d.1[c], u) {
        let c = choose|c: int|
            0 <= c < d.1.len() && (#[trigger] d.1[c]).announcement.rule == g.announcement.rule && goal_holds(d.1[c], u);
        assert(ng[c] == d.1[c]);
    } else {
        let c = choose|c: int|
            0 <= c < d.2.len() && (#[trigger] d.2[c]).announcement.rule == g.announcement.rule && goal_holds(d.2[c], u);
        assert(reduced[c].announcement == d.2[c].announcement);
        lemma_sorted_holds(d.2[c], reduced[c], u);
        assert(ng[d.1.len() + c] == reduced[c]);
    }
}

/// The first destination of a transition from a state with goals that
/// leave goals after reading is the state that has those goals.
proof fn lemma_destination_state(
    tr: Transition,
    goal_sets: Seq<Seq<GoalModel>>,
    dests: Seq<(Seq<usize>, DestinationModel)>,
    ng: Seq<GoalModel>,
)
    requires
        resolved_view(tr.destinations@) == resolved(dests, goal_sets),
        drops_allowed(dests, goal_sets),
        ng.len() > 0,
        dests == seq![(Seq::<usize>::empty(), DestinationModel::Goals(ng))],
        goal_sets.len() <= usize::MAX,
    ensures
        tr.destinations@.len() > 0,
        0 <= tr.destinations@[0].1 < goal_sets.len(),
        same_goal_set(ng, goal_sets[tr.destinations@[0].1 as int]),
{
    assert(dests[0].1 is Goals);
    if !has_state(goal_sets, ng) {
        assert(ng.len() == 0);
    }
    assert(dests.drop_last().len() == 0);
    assert(resolved(dests.drop_last(), goal_sets).len() == 0);
    let idx = choose|i: int| 0 <= i < goal_sets.len() && same_goal_set(#[trigger] goal_sets[i], ng);
    assert(resolved(dests, goal_sets)[0].1 == idx as usize);
    assert(resolved_view(tr.destinations@).len() == tr.destinations@.len());
    assert(resolved_view(tr.destinations@)[0] == (tr.destinations@[0].0@, tr.destinations@[0].1));
    assert(tr.destinations@[0].1 == idx);
}

/// The automaton finds no match for `u` only when no rule fires on `u`, for
/// a run from a state that has, for each such rule, a goal of that rule that
/// holds for `u`.
proof fn lemma_find_match_complete(
    a: SetAutomaton,
    goal_sets: Seq<Seq<GoalModel>>,
    rules: Seq<RuleModel>,
    table: Seq<(usize, usize)>,
    u: Term,
    s: int,
    steps: nat,
    fuel: nat,
)
    requires
        automaton_of(a.states@, goal_sets, rules, table, true),
        symbol_table_of(rules_terms(rules), table),
        rules_fit(rules),
        conditions_well_sized(rules),
        0 <= s < a.states@.len(),
        goals_complete_under(a, goal_sets[s], rules, u),
        obligations_within(goal_sets[s], u),
        is_supported(u),
        is_ground(u),
        symbols_agree(u, rules_terms(rules)),
        symbols_known(u, rules_terms(rules)),
    ensures
        find_match_from(a, u, s, steps, fuel) == Some(None::<Sctt>) ==> forall|k: int|
            0 <= k < rules.len() ==> !fires(a, #[trigger] rules[k], u),
    decreases steps,
{
    if steps > 0 && find_match_from(a, u, s, steps, fuel) == Some(None::<Sctt>) {
        let ts = rules_terms(rules);
        let state = a.states@[s];
        let label = state.label@;
        let gs = goal_sets[s];
        lemma_state_facts(a.states@, goal_sets, rules, table, s);
        // The label is a position of `u`.
        if s == 0 {
            assert(subterm_at(u, label) == Some(u));
        } else {
            assert(is_label_of(gs, label));
            let (k, j) = choose|k: int, j: int|
                #![trigger gs[k].obligations[j]]
                0 <= k < gs.len() && is_root_goal(gs[k]) && 0 <= j < gs[k].obligations.len()
                    && gs[k].obligations[j].position == label;
            assert(is_position(u, gs[k].obligations[j].position));
        }
        let sub = subterm_at(u, label)->0;
        lemma_ground_below(u, label);
        lemma_supported_below(u, label);
        let symbol = data_function_symbol(sub);
        assert(!symbol.variable);
        let f = symbol.symbol;
        lemma_read_symbol(u, label);
        // The symbol occurs in the rules, so it has a transition.
        lemma_head_occurs(sub, f);
        lemma_symbol_occurs_below(u, label, f, data_arguments(sub).len());
        assert(occurs_somewhere(ts, f));
        let n0 = choose|n: nat| occurs_in(ts, f, n);
        assert(occurrences(ts)(f, n0));
        assert(f < table.len() && table[f as int] == (f, n0 as usize));
        assert(transition_of(state.transitions@[f as int], label, gs, table[f as int], rules, true, goal_sets));
        lemma_first_transition_exists(state.transitions@, f, 0, f as int);
        let j = first_transition(state.transitions@, f, 0)->0;
        lemma_first_transition_index(state.transitions@, f, 0);
        let tr = state.transitions@[j];
        assert(transition_of(tr, label, gs, table[j], rules, true, goal_sets));
        let anns = tr.announcements@;
        assert(first_applicable(a, u, anns, 0, fuel) == Some(None::<Sctt>));
        let (outputs, dests) = choose|outputs: Seq<AnnouncementModel>, dests: Seq<(Seq<usize>, DestinationModel)>|
            derived(label, gs, table[j].0, table[j].1, rules, true, outputs, dests) && models(tr.announcements@).to_multiset()
                == outputs.to_multiset() && resolved_view(tr.destinations@) == resolved(dests, goal_sets) && drops_allowed(
                dests,
                goal_sets,
            );
        assert(f != 0);
        let d = derivative_of(gs, label, f);
        let reduced = choose|reduced: Seq<GoalModel>|
            obligations_sorted_from(d.2, reduced) && destinations_of(d.1 + reduced, label, rules, table[j].1 as nat, true, dests);
        let ng = d.1 + reduced;
        lemma_arities_agree(gs, u, label, f, ts);
        lemma_derivative_within(gs, label, f, u, ts);
        lemma_sorted_within(d.2, reduced, u);
        assert(obligations_within(ng, u)) by {
            assert forall|k: int, i: int| 0 <= k < ng.len() && 0 <= i < ng[k].obligations.len() implies is_position(
                u,
                (#[trigger] ng[k].obligations[i]).position,
            ) by {
                if k < d.1.len() {
                    assert(ng[k] == d.1[k]);
                    assert(is_position(u, d.1[k].obligations[i].position));
                } else {
                    assert(ng[k] == reduced[k - d.1.len()]);
                    assert(is_position(u, reduced[k - d.1.len()].obligations[i].position));
                }
            }
        }
        assert forall|k: int| 0 <= k < rules.len() implies !fires(a, #[trigger] rules[k], u) by {
            if fires(a, rules[k], u) {
                lemma_applicable_goal_kept(a, u, fuel, anns, gs, label, f, outputs, reduced, rules, k);
                assert(ng.len() > 0);
                assert(dests == seq![(Seq::<usize>::empty(), DestinationModel::Goals(ng))]);
                lemma_destination_state(tr, goal_sets, dests, ng);
                let idx = tr.destinations@[0].1 as int;
                let next = goal_sets[idx];
                assert(goals_complete_under(a, next, rules, u)) by {
                    assert forall|k2: int|
                        0 <= k2 < rules.len() && fires(a, #[trigger] rules[k2], u) implies exists|c: int|
                        0 <= c < next.len() && (#[trigger] next[c]).announcement.rule == rules[k2] && goal_holds(next[c], u) by {
                        lemma_applicable_goal_kept(a, u, fuel, anns, gs, label, f, outputs, reduced, rules, k2);
                        let c = choose|c: int|
                            0 <= c < ng.len() && (#[trigger] ng[c]).announcement.rule == rules[k2] && goal_holds(ng[c], u);
                        assert(ng.contains(ng[c]));
                        assert(next.contains(ng[c]));
                        let c2 = choose|c2: int| 0 <= c2 < next.len() && next[c2] == ng[c];
                    }
                }
                assert(obligations_within(next, u)) by {
                    assert forall|k2: int, i: int| 0 <= k2 < next.len() && 0 <= i < next[k2].obligations.len() implies is_position(
                        u,
                        (#[trigger] next[k2].obligations[i]).position,
                    ) by {
                        assert(next.contains(next[k2]));
                        assert(ng.contains(next[k2]));
                        let c = choose|c: int| 0 <= c < ng.len() && ng[c] == next[k2];
                    }
                }
                assert(find_match_from(a, u, s, steps, fuel) == find_match_from(a, u, idx, (steps - 1) as nat, fuel));
                lemma_find_match_complete(a, goal_sets, rules, table, u, idx, (steps - 1) as nat, fuel);
            }
        }
    }
}

/// The data arguments of a term without variables whose symbols occur in
/// `ts` are so too.
proof fn lemma_ground_arguments(t: Term, ts: Seq<Term>)
    requires
        is_ground(t),
        symbols_known(t, ts),
    ensures
        forall|i: int|
            0 <= i < data_arguments(t).len() ==> is_ground(#[trigger] data_arguments(t)[i]) && symbols_known(
                data_arguments(t)[i],
                ts,
            ),
{
    assert forall|i: int| 0 <= i < data_arguments(t).len() implies is_ground(#[trigger] data_arguments(t)[i])
        && symbols_known(data_arguments(t)[i], ts) by {
        assert(data_arguments(t)[i] == t.args[i + 1]);
        assert forall|f: usize, n: nat| #[trigger] symbol_occurs(t.args[i + 1], f, n) implies occurs_somewhere(ts, f) by {
            assert(symbol_occurs(t, f, n));
        }
    }
}

/// A term without variables whose symbols occur in `ts`, rebuilt with such
/// arguments, is so too.
proof fn lemma_ground_rebuild(t: Term, ys: Seq<Term>, ts: Seq<Term>)
    requires
        is_ground(t),
        symbols_known(t, ts),
        ys.len() == data_arguments(t).len(),
        forall|i: int| 0 <= i < ys.len() ==> is_ground(#[trigger] ys[i]) && symbols_known(ys[i], ts),
    ensures
        is_ground(rebuild(t, ys)),
        symbols_known(rebuild(t, ys), ts),
{
    if is_data_application(t) {
        let u = rebuild(t, ys);
        assert(u.args[0] == t.args[0]);
        assert forall|i: int| 0 <= i < u.args.len() implies is_ground(#[trigger] u.args[i]) by {
            if i > 0 {
                assert(u.args[i] == ys[i - 1]);
            }
        }
        assert forall|f: usize, n: nat| #[trigger] symbol_occurs(u, f, n) implies occurs_somewhere(ts, f) by {
            if u.args[0].symbol == f && n == u.args.len() - 1 {
                assert(symbol_occurs(t, f, n));
            } else {
                let i = choose|i: int| 1 <= i < u.args.len() && symbol_occurs(#[trigger] u.args[i], f, n);
                assert(u.args[i] == ys[i - 1]);
            }
        }
    }
}

/// A supported term rebuilt with irreducible arguments, on whose root no
/// rule fires, is irreducible.
proof fn lemma_rebuild_irreducible(a: SetAutomaton, rules: Seq<RuleModel>, t: Term, ys: Seq<Term>)
    requires
        is_supported(t),
        ys.len() == data_arguments(t).len(),
        forall|i: int| 0 <= i < ys.len() ==> irreducible_under(a, rules, #[trigger] ys[i]),
        forall|k: int| 0 <= k < rules.len() ==> !fires(a, #[trigger] rules[k], rebuild(t, ys)),
    ensures
        irreducible_under(a, rules, rebuild(t, ys)),
{
    let u = rebuild(t, ys);
    assert forall|p: Seq<usize>, k: int|
        #![trigger subterm_at(u, p), rules[k]]
        data_position(p) && subterm_at(u, p) is Some && 0 <= k < rules.len() implies !fires(
        a,
        rules[k],
        subterm_at(u, p)->0,
    ) by {
        if p.len() == 0 {
            assert(subterm_at(u, p) == Some(u));
        } else {
            let c = p[0];
            assert(c >= 2);
            assert(is_data_application(t));
            let q = p.drop_first();
            assert(u.args[c - 1] == ys[c - 2]);
            assert(subterm_at(u, p) == subterm_at(ys[c - 2], q));
            assert(data_position(q)) by {
                assert forall|i: int| 0 <= i < q.len() implies #[trigger] q[i] >= 2 by {
                    assert(q[i] == p[i + 1]);
                }
            }
            assert(irreducible_under(a, rules, ys[c - 2]));
            assert(subterm_at(ys[c - 2], q) is Some);
        }
    }
}

/// The innermost normal form of a supported data expression without
/// variables, whose function symbols occur in the rules with their arities
/// there, is irreducible: no rule fires on any of its subterms (when no left
/// hand side is a variable).
pub proof fn lemma_normal_form_irreducible(
    a: SetAutomaton,
    goal_sets: Seq<Seq<GoalModel>>,
    rules: Seq<RuleModel>,
    table: Seq<(usize, usize)>,
    t: Term,
    fuel: nat,
)
    requires
        automaton_of(a.states@, goal_sets, rules, table, true),
        symbol_table_of(rules_terms(rules), table),
        rules_fit(rules),
        conditions_well_sized(rules),
        forall|k: int| 0 <= k < rules.len() ==> !(#[trigger] rules[k]).lhs.variable,
        is_supported(t),
        well_sized(t),
        is_ground(t),
        symbols_agree(t, rules_terms(rules)),
        symbols_known(t, rules_terms(rules)),
    ensures
        normal_form(a, t, fuel) matches Some(r) ==> irreducible_under(a, rules, r) && is_supported(r) && well_sized(r)
            && is_ground(r) && symbols_agree(r, rules_terms(rules)) && symbols_known(r, rules_terms(rules)),
    decreases fuel, 0nat, 0nat,
{
    let ts = rules_terms(rules);
    if fuel > 0 {
        let f = (fuel - 1) as nat;
        let xs = data_arguments(t);
        lemma_arguments_kept(t, ts);
        lemma_ground_arguments(t, ts);
        lemma_normal_forms_irreducible(a, goal_sets, rules, table, xs, f);
        if let Some(args) = normal_forms(a, xs, f) {
            let u = rebuild(t, args);
            lemma_rebuild_kept(t, args, ts);
            lemma_ground_rebuild(t, args, ts);
            match find_match_from(a, u, 0, f, f) {
                Some(Some(rhs)) => {
                    assert(goal_sets[0] == crate::automaton::fresh_goals(rules, Seq::empty()));
                    lemma_fresh_root_sound(rules, u);
                    lemma_find_match_sound(a, goal_sets, rules, table, u, 0, f, f);
                    let (k, m) = choose|k: int, m: Map<usize, Seq<usize>>|
                        #![trigger rules[k], sctt_of(rules[k].rhs, m)]
                        0 <= k < rules.len() && rule_applies(rules[k], u) && var_map_sound(rules[k].lhs, m)
                            && variables_in(rules[k].lhs, m.dom()) && rhs == sctt_of(rules[k].rhs, m);
                    let r = rules[k];
                    lemma_evaluate_sctt_of(r.rhs, m, u);
                    let inst = instantiate(r.rhs, m, u);
                    assert(rule_supported(r) && rule_well_formed(r) && well_sized(r.rhs));
                    lemma_rules_rhs_symbols(rules);
                    lemma_rule_instance_supported(r, m, u, ts);
                    lemma_rule_instance_ground(r, m, u, ts);
                    lemma_normal_form_irreducible(a, goal_sets, rules, table, inst, f);
                },
                Some(None) => {
                    let g0 = goal_sets[0];
                    assert(g0 == crate::automaton::fresh_goals(rules, Seq::empty()));
                    assert(goals_complete_under(a, g0, rules, u)) by {
                        assert forall|k: int|
                            0 <= k < rules.len() && fires(a, #[trigger] rules[k], u) implies exists|c: int|
                            0 <= c < g0.len() && (#[trigger] g0[c]).announcement.rule == rules[k] && goal_holds(g0[c], u) by {
                            assert(g0[k] == crate::automaton::fresh_goal(rules[k], Seq::empty()));
                            assert(rule_supported(rules[k]));
                            assert(subterm_at(u, Seq::<usize>::empty()) == Some(u));
                            assert(goal_holds(g0[k], u));
                        }
                    }
                    assert(obligations_within(g0, u)) by {
                        assert forall|k: int, i: int| 0 <= k < g0.len() && 0 <= i < g0[k].obligations.len() implies is_position(
                            u,
                            (#[trigger] g0[k].obligations[i]).position,
                        ) by {
                            assert(g0[k] == crate::automaton::fresh_goal(rules[k], Seq::empty()));
                            assert(subterm_at(u, Seq::<usize>::empty()) == Some(u));
                        }
                    }
                    lemma_find_match_complete(a, goal_sets, rules, table, u, 0, f, f);
                    lemma_rebuild_irreducible(a, rules, t, args);
                },
                None => {},
            }
        }
    }
}

/// The innermost normal forms of terms are irreducible, see
/// [lemma_normal_form_irreducible].
proof fn lemma_normal_forms_irreducible(
    a: SetAutomaton,
    goal_sets: Seq<Seq<GoalModel>>,
    rules: Seq<RuleModel>,
    table: Seq<(usize, usize)>,
    xs: Seq<Term>,
    fuel: nat,
)
    requires
        automaton_of(a.states@, goal_sets, rules, table, true),
        symbol_table_of(rules_terms(rules), table),
        rules_fit(rules),
        conditions_well_sized(rules),
        forall|k: int| 0 <= k < rules.len() ==> !(#[trigger] rules[k]).lhs.variable,
        forall|i: int|
            0 <= i < xs.len() ==> is_supported(#[trigger] xs[i]) && well_sized(xs[i]) && is_ground(xs[i]) && symbols_agree(
                xs[i],
                rules_terms(rules),
            ) && symbols_known(xs[i], rules_terms(rules)),
    ensures
        normal_forms(a, xs, fuel) matches Some(rs) ==> rs.len() == xs.len() && forall|i: int|
            0 <= i < xs.len() ==> irreducible_under(a, rules, #[trigger] rs[i]) && is_supported(rs[i]) && well_sized(rs[i])
                && is_ground(rs[i]) && symbols_agree(rs[i], rules_terms(rules)) && symbols_known(rs[i], rules_terms(rules)),
    decreases fuel, 1nat, xs.len(),
{
    if xs.len() > 0 {
        let rest = xs.drop_last();
        assert forall|i: int| 0 <= i < rest.len() implies is_supported(#[trigger] rest[i]) && well_sized(rest[i])
            && is_ground(rest[i]) && symbols_agree(rest[i], rules_terms(rules)) && symbols_known(rest[i], rules_terms(rules)) by {
            assert(rest[i] == xs[i]);
        }
        lemma_normal_forms_irreducible(a, goal_sets, rules, table, rest, fuel);
        assert(xs.last() == xs[xs.len() - 1]);
        lemma_normal_form_irreducible(a, goal_sets, rules, table, xs.last(), fuel);
        if let Some(rs) = normal_forms(a, xs, fuel) {
            let rs0 = normal_forms(a, rest, fuel)->0;
            let r = normal_form(a, xs.last(), fuel)->0;
            assert(rs == rs0.push(r));
            assert forall|i: int| 0 <= i < xs.len() implies irreducible_under(a, rules, #[trigger] rs[i]) && is_supported(rs[i])
                && well_sized(rs[i]) && is_ground(rs[i]) && symbols_agree(rs[i], rules_terms(rules)) && symbols_known(
                rs[i],
                rules_terms(rules),
            ) by {
                if i < rest.len() {
                    assert(rest[i] == xs[i]);
                    assert(rs[i] == rs0[i]);
                }
            }
        }
    }
}

/// The normal form that the innermost rewriter of a specification computes
/// for a supported data expression without variables, whose function
/// symbols all occur in the supported rules with their arities there, is
/// irreducible: no supported rule fires on any of its subterms (its left
/// hand side matches and its conditions hold, judged by the normal forms of
/// this rewriter), when no left hand side of a supported rule is a variable.
pub proof fn lemma_innermost_irreducible(spec: &RewriteSpecification, rewriter: &InnermostRewriter, t: Term, fuel: nat)
    requires
        rules_usable(rules_view(spec.rewrite_rules@)),
        exists|table: Seq<(usize, usize)>, goal_sets: Seq<Seq<GoalModel>>|
            symbol_table_of(rules_terms(supported_rules(rules_view(spec.rewrite_rules@))), table) && automaton_of(
                rewriter.apma.states@,
                goal_sets,
                supported_rules(rules_view(spec.rewrite_rules@)),
                table,
                true,
            ),
        forall|k: int|
            0 <= k < supported_rules(rules_view(spec.rewrite_rules@)).len() ==> !(#[trigger] supported_rules(
                rules_view(spec.rewrite_rules@),
            )[k]).lhs.variable,
        is_supported(t),
        well_sized(t),
        is_ground(t),
        symbols_agree(t, rules_terms(supported_rules(rules_view(spec.rewrite_rules@)))),
        symbols_known(t, rules_terms(supported_rules(rules_view(spec.rewrite_rules@)))),
    ensures
        normal_form(rewriter.apma, t, fuel) matches Some(r) ==> irreducible_under(
            rewriter.apma,
            supported_rules(rules_view(spec.rewrite_rules@)),
            r,
        ),
{
    let rs = rules_view(spec.rewrite_rules@);
    let rules = supported_rules(rs);
    let (table, goal_sets) = choose|table: Seq<(usize, usize)>, goal_sets: Seq<Seq<GoalModel>>|
        symbol_table_of(rules_terms(rules), table) && automaton_of(rewriter.apma.states@, goal_sets, rules, table, true);
    assert forall|k: int| 0 <= k < rs.len() implies well_sized(#[trigger] rs[k].rhs) by {
        assert(rs[k] == spec.rewrite_rules@[k]@);
        spec.rewrite_rules@[k].rhs.lemma_well_sized();
    }
    lemma_supported_rules_kept(rs);
    assert(rules_fit(rules));
    crate::automaton::lemma_supported_rules_supported(rs);
    assert forall|k: int, i: int|
        0 <= k < rules.len() && 0 <= i < rules[k].conditions.len() implies well_sized(
        (#[trigger] rules[k].conditions[i]).lhs,
    ) && well_sized(rules[k].conditions[i].rhs) by {
        assert(rules.contains(rules[k]));
        let j = choose|j: int| 0 <= j < rs.len() && rs[j] == rules[k];
        assert(rs[j] == spec.rewrite_rules@[j]@);
        let c = spec.rewrite_rules@[j].conditions@[i];
        assert(rules[k].conditions[i] == c@);
        c.lhs.lemma_well_sized();
        c.rhs.lemma_well_sized();
    }
    lemma_normal_form_irreducible(rewriter.apma, goal_sets, rules, table, t, fuel);
}

} // verus!
