use vstd::prelude::*;

use crate::announcement::{check_equivalence_classes, classes_hold, classes_view, EMACondition, EnhancedMatchAnnouncement};
use crate::automaton::{
    automaton_of, occurs_in, resolved_view, rules_terms, rules_usable, supported_rules, symbol_table_of, SetAutomaton,
    Transition,
};
use crate::configuration_stack::{
    config_model, final_term, grown, jumped_back, lifted, pruned, rolled_back, rolled_back_model, side_model, ConfigurationStack, SideInfo,
    SideInfoType, SideModel, StackModel,
};
use crate::data::{
    data_arguments, data_function_symbol, get_data_arguments, get_data_function_symbol, is_data_application_exec,
    DATA_APPLICATION,
};
use crate::innermost_rewriter::{classes_checkable, first_transition, outcome, rebuild, InnermostRewriter, NESTING_BUDGET};
use crate::match_goal::GoalModel;
use crate::rewrite_specification::{rules_view, RewriteSpecification, RuleModel};
use crate::rewriting::{added, counts_grow, lemma_added_twice, one_more, RewriteEngine, RewritingStatistics};
use crate::semi_compressed_tree::{sctt_evaluate, sctt_positions_valid};
use crate::term::{
    get_position, is_position, is_position_exec, lemma_replace_with_own_subterm, replace_at, subterm_at, terms_view, ATerm,
    Term,
};

verus! {

/// No transition of the automaton announces a match.
pub open spec fn announces_nothing(a: SetAutomaton) -> bool {
    forall|s: int, j: int|
        0 <= s < a.states@.len() && 0 <= j < a.states@[s].transitions@.len() ==> (
        #[trigger] a.states@[s].transitions@[j]).announcements@.len() == 0
}

/// The term of every configuration but the root is the subterm of its
/// parent at its position, and all side information is a side branch.
pub open spec fn consistent(cs: ConfigurationStack) -> bool {
    &&& forall|i: int|
        1 <= i < cs.stack@.len() ==> subterm_at(
            cs.terms@[i - 1]@,
            (#[trigger] cs.stack@[i]).position->0@,
        ) == Some(cs.terms@[i]@)
    &&& forall|i: int| 0 <= i < cs.side_branch_stack@.len() ==> (#[trigger] cs.side_branch_stack@[i]).info is SideBranch
}

/// Lifting the subterms of a consistent stack changes nothing.
proof fn lemma_lifted_consistent(cs: ConfigurationStack, up: int, e: int)
    requires
        cs.wf(),
        consistent(cs),
        0 <= e <= up < cs.stack@.len(),
    ensures
        lifted(cs.stack@, terms_view(cs.terms@), up, e, cs.terms@[up]@) == cs.terms@[e]@,
    decreases up - e,
{
    let ts = terms_view(cs.terms@);
    if e < up {
        lemma_lifted_consistent(cs, up, e + 1);
        crate::configuration_stack::lemma_lifted_down(cs.stack@, ts, up, e + 1, ts[up]);
        assert(ts[e] == cs.terms@[e]@);
        assert(ts[e + 1] == cs.terms@[e + 1]@);
        assert(subterm_at(ts[e], cs.stack@[e + 1].position->0@) == Some(ts[e + 1]));
        lemma_replace_with_own_subterm(ts[e], cs.stack@[e + 1].position->0@);
    }
    assert(ts[up] == cs.terms@[up]@);
}

/// Rolling back a side stack that holds only side branches keeps only side
/// branches.
proof fn lemma_rolled_back_branches(side: Seq<SideInfo>, end: int, including: bool)
    requires
        forall|i: int| 0 <= i < side.len() ==> (#[trigger] side[i]).info is SideBranch,
    ensures
        forall|i: int|
            0 <= i < rolled_back(side, end, including).len() ==> (#[trigger] rolled_back(side, end, including)[i]).info is SideBranch,
{
    crate::configuration_stack::lemma_rolled_back_prefix(side, end, including);
}

/// The outcome of going through the announcements of a transition.
pub enum Announced {
    /// Applying a rule failed: the automaton does not fit the term.
    Failed,
    /// A rule was applied, giving this stack.
    Applied(StackModel),
    /// No rule was applied; rules to apply later or to check were put on
    /// the side, giving this stack.
    Pending(StackModel),
}

/// The stack with one more piece of side information.
pub open spec fn with_side(m: StackModel, leaf: int, info: SideModel) -> StackModel {
    StackModel { side: m.side.push((leaf as usize, info)), ..m }
}

/// The stack of a term: its root configuration in the initial state.
pub open spec fn initial_stack(t: Term) -> StackModel {
    StackModel {
        configs: seq![(0usize, None::<Seq<usize>>)],
        terms: seq![t],
        side: Seq::empty(),
        current: Some(0usize),
        reliable: 0,
    }
}

/// The stack after going back to the last configuration with side
/// information; without side information the exploration ends.
pub open spec fn backed(m: StackModel) -> StackModel {
    if m.side.len() > 0 {
        jumped_back(m, m.side.last().0 as int)
    } else {
        StackModel { current: None, ..m }
    }
}

/// The stack after applying the announced rule at configuration `leaf`:
/// its right hand side is evaluated on the subterm at the position of the
/// announcement, and placed at the label of the configuration where the
/// match started (the symbols seen before the leaf). `None` when the
/// announcement does not fit the term.
pub open spec fn applied(a: SetAutomaton, e: EnhancedMatchAnnouncement, leaf: int, m: StackModel) -> Option<StackModel> {
    let u = m.terms[leaf];
    let pos = e.announcement.position@;
    if !is_position(u, pos) {
        None
    } else {
        let redex = subterm_at(u, pos)->0;
        if !sctt_positions_valid(e.semi_compressed_rhs@, redex) {
            None
        } else if e.announcement.symbols_seen > leaf {
            None
        } else {
            let point = leaf - e.announcement.symbols_seen;
            let state = m.configs[point].0;
            if state >= a.states@.len() || !is_position(m.terms[point], a.states@[state as int].label@) {
                None
            } else {
                Some(pruned(m, point, a.states@[state as int].label@, sctt_evaluate(e.semi_compressed_rhs@, redex)))
            }
        }
    }
}

/// Goes through the announcements from index `k` on at configuration
/// `leaf`: one without conditions and equivalence classes is applied at
/// once unless it duplicates subterms (then it is put on the side to apply
/// later); the others are put on the side to be checked.
pub open spec fn announced(a: SetAutomaton, anns: Seq<EnhancedMatchAnnouncement>, k: int, leaf: int, m: StackModel) -> Announced
    decreases anns.len() - k,
{
    if k < 0 || k >= anns.len() {
        Announced::Pending(m)
    } else {
        let e = anns[k];
        if e.conditions@.len() == 0 && e.equivalence_classes@.len() == 0 {
            if e.is_duplicating {
                announced(a, anns, k + 1, leaf, with_side(m, leaf, SideModel::Delayed(e)))
            } else {
                match applied(a, e, leaf, m) {
                    None => Announced::Failed,
                    Some(m2) => Announced::Applied(m2),
                }
            }
        } else {
            announced(a, anns, k + 1, leaf, with_side(m, leaf, SideModel::Check(e)))
        }
    }
}

/// The normal form that the stack based rewriter computes for `t`: the
/// configuration tree of the automaton on `t` is explored depth first in at
/// most `fuel` steps, with conditions nested at most `fuel` deep. `None`
/// when the fuel runs out or the automaton does not fit the term.
pub open spec fn sabre_normal_form(a: SetAutomaton, t: Term, fuel: nat) -> Option<Term>
    decreases fuel, 3nat, 0int,
{
    if fuel == 0 {
        None
    } else {
        sabre_run(a, initial_stack(t), fuel, fuel)
    }
}

/// Whether the conditions of the announcement from index `k` on hold for
/// the term `u` of the configuration: the normal forms of the instances of
/// both sides are equal or different as each condition asks. `None` when
/// rewriting runs out of fuel or the announcement does not fit the term.
pub open spec fn sabre_conditions(a: SetAutomaton, e: EnhancedMatchAnnouncement, u: Term, k: int, fuel: nat) -> Option<bool>
    decreases fuel, 4nat, e.conditions@.len() - k,
{
    if k < 0 || k >= e.conditions@.len() {
        Some(true)
    } else {
        let c = e.conditions@[k];
        let pos = e.announcement.position@;
        if !is_position(u, pos) {
            None
        } else {
            let sub = subterm_at(u, pos)->0;
            if !sctt_positions_valid(c.semi_compressed_rhs@, sub) || !sctt_positions_valid(c.semi_compressed_lhs@, sub) {
                None
            } else {
                let rhs = sctt_evaluate(c.semi_compressed_rhs@, sub);
                let lhs = sctt_evaluate(c.semi_compressed_lhs@, sub);
                if !c.equality || lhs != rhs {
                    match sabre_normal_form(a, rhs, fuel) {
                        None => None,
                        Some(rn) => match sabre_normal_form(a, lhs, fuel) {
                            None => None,
                            Some(ln) => if (!c.equality && ln == rn) || (c.equality && ln != rn) {
                                Some(false)
                            } else {
                                sabre_conditions(a, e, u, k + 1, fuel)
                            },
                        },
                    }
                } else {
                    sabre_conditions(a, e, u, k + 1, fuel)
                }
            }
        }
    }
}

/// Explores the configuration tree from the stack `m` for at most `steps`
/// steps; see [sabre_normal_form].
pub open spec fn sabre_run(a: SetAutomaton, m: StackModel, steps: nat, fuel: nat) -> Option<Term>
    decreases fuel, 2nat, steps,
{
    if steps == 0 {
        None
    } else {
        match m.current {
            None => Some(final_term(m)),
            Some(_) => match sabre_step(a, m, fuel) {
                None => None,
                Some(m2) => sabre_run(a, m2, (steps - 1) as nat, fuel),
            },
        }
    }
}

/// The normal forms that the stack based rewriter finds for the terms, with
/// `fuel`; `None` when it finds none for one of them.
pub open spec fn sabre_normal_forms(a: SetAutomaton, ts: Seq<Term>, fuel: nat) -> Option<Seq<Term>>
    decreases fuel, 5nat, ts.len(),
{
    if ts.len() == 0 {
        Some(Seq::empty())
    } else {
        match sabre_normal_forms(a, ts.drop_last(), fuel) {
            None => None,
            Some(rs) => match sabre_normal_form(a, ts.last(), fuel) {
                None => None,
                Some(r) => Some(rs.push(r)),
            },
        }
    }
}

/// One step at the current configuration `leaf` without side information:
/// the symbol at the label of its state is observed and the transition on
/// it is taken. A function symbol without a transition occurs in no rule:
/// the arguments of the subterm at the label are rewritten to normal form on
/// their own (with one unit of fuel less), the result is put at the label,
/// and the exploration goes back. At a variable the exploration goes back.
/// `None` when the automaton does not fit the term or an argument has no
/// normal form within the fuel.
pub open spec fn observed(a: SetAutomaton, m: StackModel, leaf: int, fuel: nat) -> Option<StackModel>
    decreases fuel, 0nat, 0int,
{
    let si = m.configs[leaf].0;
    if si >= a.states@.len() {
        None
    } else {
        let state = a.states@[si as int];
        let u = m.terms[leaf];
        if !is_position(u, state.label@) {
            None
        } else {
            let sub = subterm_at(u, state.label@)->0;
            let symbol = data_function_symbol(sub);
            if symbol.variable {
                Some(backed(m))
            } else {
                match first_transition(state.transitions@, symbol.symbol, 0) {
                    None => if fuel == 0 {
                        None
                    } else {
                        match sabre_normal_forms(a, data_arguments(sub), (fuel - 1) as nat) {
                            None => None,
                            Some(args) => Some(backed(pruned(m, leaf, state.label@, rebuild(sub, args)))),
                        }
                    },
                    Some(j) => {
                        let tr = state.transitions@[j];
                        transitioned(tr, leaf, announced(a, tr.announcements@, 0, leaf, m))
                    },
                }
            }
        }
    }
}

/// The stack after the transition `tr` at configuration `leaf`, once its
/// announcements gave `r`: the stack of the rule applied, or else the
/// exploration goes on with the first destination of the transition, or
/// goes back when it has none. `None` when the automaton does not fit the
/// term.
pub open spec fn transitioned(tr: Transition, leaf: int, r: Announced) -> Option<StackModel> {
    match r {
        Announced::Failed => None,
        Announced::Applied(m2) => Some(m2),
        Announced::Pending(m2) => if tr.destinations@.len() == 0 {
            Some(backed(m2))
        } else if !is_position(m2.terms[leaf], tr.destinations@[0].0@) {
            None
        } else {
            Some(grown(m2, leaf, resolved_view(tr.destinations@)))
        },
    }
}

/// One step of the exploration at the current configuration: its last
/// side information is taken up (the next branch, a delayed rule, or a
/// rule to check), or without side information the configuration is
/// observed. `None` when there is no current configuration, rewriting a
/// condition runs out of fuel, or the automaton does not fit the term.
pub open spec fn sabre_step(a: SetAutomaton, m: StackModel, fuel: nat) -> Option<StackModel>
    decreases fuel, 1nat, 0int,
{
    match m.current {
        None => None,
        Some(leaf) => {
            let leaf = leaf as int;
            if m.side.len() > 0 && m.side.last().0 == leaf {
                let m1 = StackModel { side: m.side.drop_last(), ..m };
                match m.side.last().1 {
                    SideModel::Branch(sb) => if sb.len() == 0 || !is_position(m1.terms[leaf], sb[0].0) {
                        None
                    } else {
                        Some(grown(m1, leaf, sb))
                    },
                    SideModel::Delayed(e) => applied(a, e, leaf, m1),
                    SideModel::Check(e) => {
                        let u = m1.terms[leaf];
                        let verdict = if classes_checkable(u, e.equivalence_classes@) && classes_hold(
                            u,
                            classes_view(e.equivalence_classes@),
                        ) {
                            if fuel == 0 {
                                None
                            } else {
                                sabre_conditions(a, e, u, 0, (fuel - 1) as nat)
                            }
                        } else {
                            Some(false)
                        };
                        match verdict {
                            None => None,
                            Some(true) => applied(a, e, leaf, m1),
                            Some(false) => Some(backed(m1)),
                        }
                    },
                }
            } else {
                observed(a, m, leaf, fuel)
            }
        },
    }
}

/// The number of rewrite rules that the stack based rewriter applies, or
/// tries to apply, when it rewrites `t` with `fuel` (see
/// [sabre_normal_form]), counting those applied to rewrite the sides of
/// conditions and the arguments below symbols that occur in no rule.
pub open spec fn sabre_rule_count(a: SetAutomaton, t: Term, fuel: nat) -> nat
    decreases fuel, 3nat, 0int,
{
    if fuel == 0 {
        0
    } else {
        sabre_run_count(a, initial_stack(t), fuel, fuel)
    }
}

/// The number of rules applied, or tried, in a run of at most `steps` steps
/// from the stack `m`; see [sabre_run].
pub open spec fn sabre_run_count(a: SetAutomaton, m: StackModel, steps: nat, fuel: nat) -> nat
    decreases fuel, 2nat, steps,
{
    if steps == 0 {
        0
    } else {
        match m.current {
            None => 0,
            Some(_) => sabre_step_count(a, m, fuel) + match sabre_step(a, m, fuel) {
                None => 0,
                Some(m2) => sabre_run_count(a, m2, (steps - 1) as nat, fuel),
            },
        }
    }
}

/// The number of rules applied, or tried, in one step; see [sabre_step].
pub open spec fn sabre_step_count(a: SetAutomaton, m: StackModel, fuel: nat) -> nat
    decreases fuel, 1nat, 0int,
{
    match m.current {
        None => 0,
        Some(leaf) => {
            let leaf = leaf as int;
            if m.side.len() > 0 && m.side.last().0 == leaf {
                let m1 = StackModel { side: m.side.drop_last(), ..m };
                match m.side.last().1 {
                    SideModel::Branch(_) => 0,
                    SideModel::Delayed(_) => 1,
                    SideModel::Check(e) => {
                        let u = m1.terms[leaf];
                        if classes_checkable(u, e.equivalence_classes@) && classes_hold(
                            u,
                            classes_view(e.equivalence_classes@),
                        ) && fuel > 0 {
                            let f = (fuel - 1) as nat;
                            sabre_conditions_count(a, e, u, 0, f) + if sabre_conditions(a, e, u, 0, f) == Some(true) {
                                1nat
                            } else {
                                0nat
                            }
                        } else {
                            0
                        }
                    },
                }
            } else {
                sabre_observed_count(a, m, leaf, fuel)
            }
        },
    }
}

/// The number of rules applied, or tried, when the configuration `leaf` is
/// observed; see [observed].
pub open spec fn sabre_observed_count(a: SetAutomaton, m: StackModel, leaf: int, fuel: nat) -> nat
    decreases fuel, 0nat, 0int,
{
    let si = m.configs[leaf].0;
    if si >= a.states@.len() {
        0
    } else {
        let state = a.states@[si as int];
        let u = m.terms[leaf];
        if !is_position(u, state.label@) {
            0
        } else {
            let sub = subterm_at(u, state.label@)->0;
            let symbol = data_function_symbol(sub);
            if symbol.variable {
                0
            } else {
                match first_transition(state.transitions@, symbol.symbol, 0) {
                    None => if fuel == 0 {
                        0
                    } else {
                        sabre_normal_forms_count(a, data_arguments(sub), (fuel - 1) as nat)
                    },
                    Some(j) => {
                        let tr = state.transitions@[j];
                        if announced(a, tr.announcements@, 0, leaf, m) is Pending {
                            0
                        } else {
                            1
                        }
                    },
                }
            }
        }
    }
}

/// The number of rules applied, or tried, when the terms are rewritten one
/// after the other, up to the first without a normal form; see
/// [sabre_normal_forms].
pub open spec fn sabre_normal_forms_count(a: SetAutomaton, ts: Seq<Term>, fuel: nat) -> nat
    decreases fuel, 5nat, ts.len(),
{
    if ts.len() == 0 {
        0
    } else {
        let c = sabre_normal_forms_count(a, ts.drop_last(), fuel);
        match sabre_normal_forms(a, ts.drop_last(), fuel) {
            None => c,
            Some(_) => c + sabre_rule_count(a, ts.last(), fuel),
        }
    }
}

/// The number of rules applied, or tried, when the conditions from index `k`
/// on are checked; see [sabre_conditions].
pub open spec fn sabre_conditions_count(a: SetAutomaton, e: EnhancedMatchAnnouncement, u: Term, k: int, fuel: nat) -> nat
    decreases fuel, 4nat, e.conditions@.len() - k,
{
    if k < 0 || k >= e.conditions@.len() {
        0
    } else {
        let c = e.conditions@[k];
        let pos = e.announcement.position@;
        if !is_position(u, pos) {
            0
        } else {
            let sub = subterm_at(u, pos)->0;
            if !sctt_positions_valid(c.semi_compressed_rhs@, sub) || !sctt_positions_valid(c.semi_compressed_lhs@, sub) {
                0
            } else {
                let rhs = sctt_evaluate(c.semi_compressed_rhs@, sub);
                let lhs = sctt_evaluate(c.semi_compressed_lhs@, sub);
                if !c.equality || lhs != rhs {
                    let cr = sabre_rule_count(a, rhs, fuel);
                    match sabre_normal_form(a, rhs, fuel) {
                        None => cr,
                        Some(rn) => {
                            let cl = sabre_rule_count(a, lhs, fuel);
                            match sabre_normal_form(a, lhs, fuel) {
                                None => cr + cl,
                                Some(ln) => if (!c.equality && ln == rn) || (c.equality && ln != rn) {
                                    cr + cl
                                } else {
                                    cr + cl + sabre_conditions_count(a, e, u, k + 1, fuel)
                                },
                            }
                        },
                    }
                } else {
                    sabre_conditions_count(a, e, u, k + 1, fuel)
                }
            }
        }
    }
}

/// Some prefix of the terms without a normal form: the count of all of them
/// is that of the prefix.
proof fn lemma_sabre_normal_forms_count_prefix(a: SetAutomaton, ts: Seq<Term>, i: int, fuel: nat)
    requires
        0 <= i <= ts.len(),
        sabre_normal_forms(a, ts.take(i), fuel) is None,
    ensures
        sabre_normal_forms_count(a, ts, fuel) == sabre_normal_forms_count(a, ts.take(i), fuel),
    decreases ts.len() - i,
{
    if i < ts.len() {
        assert(ts.take(i + 1).drop_last() =~= ts.take(i));
        lemma_sabre_normal_forms_count_prefix(a, ts, i + 1, fuel);
    } else {
        assert(ts.take(i) =~= ts);
    }
}

/// Some prefix of the terms without a normal form leaves all of them
/// without one.
proof fn lemma_sabre_normal_forms_prefix(a: SetAutomaton, ts: Seq<Term>, i: int, fuel: nat)
    requires
        0 <= i <= ts.len(),
        sabre_normal_forms(a, ts.take(i), fuel) is None,
    ensures
        sabre_normal_forms(a, ts, fuel) is None,
    decreases ts.len() - i,
{
    if i < ts.len() {
        assert(ts.take(i + 1).drop_last() =~= ts.take(i));
        lemma_sabre_normal_forms_prefix(a, ts, i + 1, fuel);
    } else {
        assert(ts.take(i) =~= ts);
    }
}

/// The condition holds for the subterm `sub` where its rule matched, judged
/// by the stack based rewriter with `fuel`: both sides can be instantiated,
/// and either it asks for equality of sides that are equal as they are, or
/// the normal forms of both sides exist and are equal exactly when it asks
/// for equality.
pub open spec fn sabre_condition_holds(a: SetAutomaton, c: EMACondition, sub: Term, fuel: nat) -> bool {
    let l = sctt_evaluate(c.semi_compressed_lhs@, sub);
    let r = sctt_evaluate(c.semi_compressed_rhs@, sub);
    &&& sctt_positions_valid(c.semi_compressed_lhs@, sub)
    &&& sctt_positions_valid(c.semi_compressed_rhs@, sub)
    &&& (c.equality && l == r) || (sabre_normal_form(a, l, fuel) is Some && sabre_normal_form(a, r, fuel) is Some && (
    sabre_normal_form(a, l, fuel)->0 == sabre_normal_form(a, r, fuel)->0) == c.equality)
}

/// When the stack based rewriter finds that the conditions of an
/// announcement from index `k` on hold for the term `u` of a configuration,
/// each of them holds for the subterm at the position of the announcement.
pub proof fn lemma_sabre_conditions_all(a: SetAutomaton, e: EnhancedMatchAnnouncement, u: Term, k: int, fuel: nat)
    requires
        0 <= k,
        sabre_conditions(a, e, u, k, fuel) == Some(true),
    ensures
        k < e.conditions@.len() ==> is_position(u, e.announcement.position@),
        forall|i: int|
            k <= i < e.conditions@.len() ==> sabre_condition_holds(
                a,
                #[trigger] e.conditions@[i],
                subterm_at(u, e.announcement.position@)->0,
                fuel,
            ),
    decreases e.conditions@.len() - k,
{
    if k < e.conditions@.len() {
        lemma_sabre_conditions_all(a, e, u, k + 1, fuel);
    }
}

/// When each condition of an announcement from index `k` on holds for the
/// subterm at the position of the announcement, the stack based rewriter
/// finds that they hold.
pub proof fn lemma_sabre_conditions_met(a: SetAutomaton, e: EnhancedMatchAnnouncement, u: Term, k: int, fuel: nat)
    requires
        0 <= k,
        k < e.conditions@.len() ==> is_position(u, e.announcement.position@),
        forall|i: int|
            k <= i < e.conditions@.len() ==> sabre_condition_holds(
                a,
                #[trigger] e.conditions@[i],
                subterm_at(u, e.announcement.position@)->0,
                fuel,
            ),
    ensures
        sabre_conditions(a, e, u, k, fuel) == Some(true),
    decreases e.conditions@.len() - k,
{
    if k < e.conditions@.len() {
        assert(sabre_condition_holds(a, e.conditions@[k], subterm_at(u, e.announcement.position@)->0, fuel));
        lemma_sabre_conditions_met(a, e, u, k + 1, fuel);
    }
}

/// A step that takes up a rule whose equivalence classes and conditions are
/// to be checked applies it exactly when they hold: the equivalence classes
/// hold for the term of the configuration and every condition holds (with
/// one unit of fuel less); otherwise the exploration goes back.
pub proof fn lemma_sabre_check_step(a: SetAutomaton, m: StackModel, fuel: nat)
    requires
        m.current is Some,
        m.side.len() > 0,
        m.side.last().0 == m.current->0,
        m.side.last().1 is Check,
        sabre_step(a, m, fuel) is Some,
    ensures
        ({
            let leaf = m.current->0 as int;
            let e = m.side.last().1->Check_0;
            let m1 = StackModel { side: m.side.drop_last(), ..m };
            let u = m1.terms[leaf];
            ||| sabre_step(a, m, fuel) == Some(backed(m1))
            ||| {
                &&& fuel > 0
                &&& classes_checkable(u, e.equivalence_classes@)
                &&& classes_hold(u, classes_view(e.equivalence_classes@))
                &&& (e.conditions@.len() > 0 ==> is_position(u, e.announcement.position@))
                &&& forall|i: int|
                    0 <= i < e.conditions@.len() ==> sabre_condition_holds(
                        a,
                        #[trigger] e.conditions@[i],
                        subterm_at(u, e.announcement.position@)->0,
                        (fuel - 1) as nat,
                    )
                &&& sabre_step(a, m, fuel) == applied(a, e, leaf, m1)
            }
        }),
        ({
            let leaf = m.current->0 as int;
            let e = m.side.last().1->Check_0;
            let m1 = StackModel { side: m.side.drop_last(), ..m };
            let u = m1.terms[leaf];
            fuel > 0 && classes_checkable(u, e.equivalence_classes@) && classes_hold(
                u,
                classes_view(e.equivalence_classes@),
            ) && (e.conditions@.len() > 0 ==> is_position(u, e.announcement.position@)) && (forall|i: int|
                0 <= i < e.conditions@.len() ==> sabre_condition_holds(
                    a,
                    #[trigger] e.conditions@[i],
                    subterm_at(u, e.announcement.position@)->0,
                    (fuel - 1) as nat,
                )) ==> sabre_step(a, m, fuel) == applied(a, e, leaf, m1)
        }),
{
    let leaf = m.current->0 as int;
    let e = m.side.last().1->Check_0;
    let m1 = StackModel { side: m.side.drop_last(), ..m };
    let u = m1.terms[leaf];
    if classes_checkable(u, e.equivalence_classes@) && classes_hold(u, classes_view(e.equivalence_classes@)) && fuel > 0 {
        if sabre_conditions(a, e, u, 0, (fuel - 1) as nat) == Some(true) {
            lemma_sabre_conditions_all(a, e, u, 0, (fuel - 1) as nat);
        }
        if (e.conditions@.len() > 0 ==> is_position(u, e.announcement.position@)) && (forall|i: int|
            0 <= i < e.conditions@.len() ==> sabre_condition_holds(
                a,
                #[trigger] e.conditions@[i],
                subterm_at(u, e.announcement.position@)->0,
                (fuel - 1) as nat,
            )) {
            lemma_sabre_conditions_met(a, e, u, 0, (fuel - 1) as nat);
        }
    }
}

/// A step that takes up a delayed rule applies it: the subterm at the label
/// of the configuration where its match started (`symbols_seen`
/// configurations up) becomes the right hand side of the rule instantiated
/// from the matched subterm (the subterm at the position of the announcement
/// in the term of the current configuration), and the exploration goes on
/// from that configuration, after everything above it is dropped. The step
/// fails only when the announcement does not fit the term.
pub proof fn lemma_sabre_delayed_step(a: SetAutomaton, m: StackModel, fuel: nat)
    requires
        m.current is Some,
        m.side.len() > 0,
        m.side.last().0 == m.current->0,
        m.side.last().1 is Delayed,
        m.current->0 < m.terms.len(),
        sabre_step(a, m, fuel) is Some,
    ensures
        ({
            let leaf = m.current->0 as int;
            let e = m.side.last().1->Delayed_0;
            let point = leaf - e.announcement.symbols_seen;
            let state = a.states@[m.configs[point].0 as int];
            let redex = subterm_at(m.terms[leaf], e.announcement.position@)->0;
            let m2 = sabre_step(a, m, fuel)->0;
            &&& 0 <= point <= leaf
            &&& is_position(m.terms[leaf], e.announcement.position@)
            &&& is_position(m.terms[point], state.label@)
            &&& m2.current == Some(point as usize)
            &&& m2.configs == m.configs.take(point + 1)
            &&& m2.terms.len() == point + 1
            &&& m2.terms[point] == replace_at(m.terms[point], state.label@, sctt_evaluate(e.semi_compressed_rhs@, redex))
            &&& forall|i: int| 0 <= i < point ==> m2.terms[i] == m.terms[i]
        }),
{
    let leaf = m.current->0 as int;
    let e = m.side.last().1->Delayed_0;
    let m1 = StackModel { side: m.side.drop_last(), ..m };
    assert(sabre_step(a, m, fuel) == applied(a, e, leaf, m1));
    let point = leaf - e.announcement.symbols_seen;
    let m2 = sabre_step(a, m, fuel)->0;
    assert(m2.terms =~= m.terms.take(point + 1).update(
        point,
        replace_at(
            m.terms[point],
            a.states@[m.configs[point].0 as int].label@,
            sctt_evaluate(e.semi_compressed_rhs@, subterm_at(m.terms[leaf], e.announcement.position@)->0),
        ),
    ));
}

/// The announced rule has neither conditions nor equivalence classes.
pub open spec fn unconditional(e: EnhancedMatchAnnouncement) -> bool {
    e.conditions@.len() == 0 && e.equivalence_classes@.len() == 0
}

/// The side information kept at configuration `leaf` for an announcement
/// that is not applied at once: a rule without conditions and equivalence
/// classes is delayed, any other is to be checked.
pub open spec fn pending_entry(leaf: int, e: EnhancedMatchAnnouncement) -> (usize, SideModel) {
    if unconditional(e) {
        (leaf as usize, SideModel::Delayed(e))
    } else {
        (leaf as usize, SideModel::Check(e))
    }
}

/// The side information kept at configuration `leaf` for the announcements
/// from index `k` up to `j`, in order.
pub open spec fn pending_entries(anns: Seq<EnhancedMatchAnnouncement>, k: int, j: int, leaf: int) -> Seq<(usize, SideModel)> {
    Seq::new((j - k) as nat, |i: int| pending_entry(leaf, anns[k + i]))
}

/// Going through the announcements of a transition from index `k` on puts
/// every announcement on the side of configuration `leaf`, in order (a rule
/// without conditions and equivalence classes that duplicates subterms as
/// delayed, any other rule to be checked), up to the first rule without
/// conditions and equivalence classes that does not duplicate subterms: that
/// one is applied at once to the stack with the side information gathered
/// before it. Without such a rule every announcement ends up on the side and
/// nothing else changes.
#[verifier::rlimit(40)]
pub proof fn lemma_sabre_announced(a: SetAutomaton, anns: Seq<EnhancedMatchAnnouncement>, k: int, leaf: int, m: StackModel)
    requires
        0 <= k <= anns.len(),
    ensures
        (forall|i: int| k <= i < anns.len() ==> !(unconditional(#[trigger] anns[i]) && !anns[i].is_duplicating))
            ==> announced(a, anns, k, leaf, m) == Announced::Pending(
            StackModel { side: m.side + pending_entries(anns, k, anns.len() as int, leaf), ..m },
        ),
        forall|j: int|
            k <= j < anns.len() && unconditional(#[trigger] anns[j]) && !anns[j].is_duplicating && (forall|i: int|
                k <= i < j ==> !(unconditional(#[trigger] anns[i]) && !anns[i].is_duplicating)) ==> announced(
                a,
                anns,
                k,
                leaf,
                m,
            ) == match applied(a, anns[j], leaf, StackModel { side: m.side + pending_entries(anns, k, j, leaf), ..m }) {
                None => Announced::Failed,
                Some(m2) => Announced::Applied(m2),
            },
    decreases anns.len() - k,
{
    if k == anns.len() {
        assert(m.side + pending_entries(anns, k, anns.len() as int, leaf) =~= m.side);
    } else {
        let e = anns[k];
        assert(m.side + pending_entries(anns, k, k, leaf) =~= m.side);
        if !(unconditional(e) && !e.is_duplicating) {
            let m1 = with_side(m, leaf, pending_entry(leaf, e).1);
            lemma_sabre_announced(a, anns, k + 1, leaf, m1);
            assert(announced(a, anns, k, leaf, m) == announced(a, anns, k + 1, leaf, m1));
            assert forall|j: int| k < j <= anns.len() implies m1.side + pending_entries(anns, k + 1, j, leaf) =~= m.side
                + pending_entries(anns, k, j, leaf) by {
                assert forall|i: int| 0 <= i < m.side.len() + (j - k) implies (m1.side + pending_entries(
                    anns,
                    k + 1,
                    j,
                    leaf,
                ))[i] == (m.side + pending_entries(anns, k, j, leaf))[i] by {
                    if i > m.side.len() {
                        assert(anns[k + 1 + (i - m.side.len() - 1)] == anns[k + (i - m.side.len())]);
                    }
                }
            }
            assert(m1.side + pending_entries(anns, k + 1, anns.len() as int, leaf) =~= m.side + pending_entries(
                anns,
                k,
                anns.len() as int,
                leaf,
            ));
            assert forall|j: int|
                k <= j < anns.len() && unconditional(#[trigger] anns[j]) && !anns[j].is_duplicating && (forall|i: int|
                    k <= i < j ==> !(unconditional(#[trigger] anns[i]) && !anns[i].is_duplicating)) implies announced(
                a,
                anns,
                k,
                leaf,
                m,
            ) == match applied(a, anns[j], leaf, StackModel { side: m.side + pending_entries(anns, k, j, leaf), ..m }) {
                None => Announced::Failed,
                Some(m2) => Announced::Applied(m2),
            } by {
                assert(j != k);
                assert(m1.side + pending_entries(anns, k + 1, j, leaf) =~= m.side + pending_entries(anns, k, j, leaf));
                assert(StackModel { side: m1.side + pending_entries(anns, k + 1, j, leaf), ..m1 } == StackModel {
                    side: m.side + pending_entries(anns, k, j, leaf),
                    ..m
                });
            }
            assert(StackModel { side: m1.side + pending_entries(anns, k + 1, anns.len() as int, leaf), ..m1 } == StackModel {
                side: m.side + pending_entries(anns, k, anns.len() as int, leaf),
                ..m
            });
        } else {
            assert(StackModel { side: m.side + pending_entries(anns, k, k, leaf), ..m } == m);
        }
    }
}

/// A step that observes a function symbol with a transition that applies no
/// rule at once (see [lemma_sabre_announced]) and has destinations goes on
/// to the first destination: a configuration is added for its state, with
/// the subterm at its position, and the other destinations are kept on the
/// side as a branch still to explore, after the side information of the
/// announcements.
#[verifier::rlimit(30)]
pub proof fn lemma_sabre_explores(a: SetAutomaton, m: StackModel, fuel: nat)
    requires
        m.current is Some,
        !(m.side.len() > 0 && m.side.last().0 == m.current->0),
        ({
            let leaf = m.current->0 as int;
            let si = m.configs[leaf].0;
            let state = a.states@[si as int];
            let sub = subterm_at(m.terms[leaf], state.label@)->0;
            let symbol = data_function_symbol(sub);
            &&& si < a.states@.len()
            &&& is_position(m.terms[leaf], state.label@)
            &&& !symbol.variable
            &&& first_transition(state.transitions@, symbol.symbol, 0) matches Some(j) && {
                let tr = state.transitions@[j];
                &&& tr.destinations@.len() > 0
                &&& forall|i: int|
                    0 <= i < tr.announcements@.len() ==> !(unconditional(#[trigger] tr.announcements@[i])
                        && !tr.announcements@[i].is_duplicating)
            }
        }),
        sabre_step(a, m, fuel) is Some,
    ensures
        ({
            let leaf = m.current->0 as int;
            let state = a.states@[m.configs[leaf].0 as int];
            let sub = subterm_at(m.terms[leaf], state.label@)->0;
            let j = first_transition(state.transitions@, data_function_symbol(sub).symbol, 0)->0;
            let tr = state.transitions@[j];
            let anns = tr.announcements@;
            let ds = resolved_view(tr.destinations@);
            let side = m.side + pending_entries(anns, 0, anns.len() as int, leaf);
            let m2 = sabre_step(a, m, fuel)->0;
            &&& m2.current == Some((leaf + 1) as usize)
            &&& m2.configs == m.configs.push((ds[0].1, Some(ds[0].0)))
            &&& m2.terms == m.terms.push(subterm_at(m.terms[leaf], ds[0].0)->0)
            &&& m2.side == if ds.len() > 1 {
                side.push((leaf as usize, SideModel::Branch(ds.subrange(1, ds.len() as int))))
            } else {
                side
            }
            &&& m2.reliable == m.reliable
        }),
{
    let leaf = m.current->0 as int;
    let state = a.states@[m.configs[leaf].0 as int];
    let sub = subterm_at(m.terms[leaf], state.label@)->0;
    let j = first_transition(state.transitions@, data_function_symbol(sub).symbol, 0)->0;
    let tr = state.transitions@[j];
    let anns = tr.announcements@;
    lemma_sabre_announced(a, anns, 0, leaf, m);
    let ds = tr.destinations@;
    assert(resolved_view(ds)[0] == (ds[0].0@, ds[0].1));
}

/// A rule applied at once leaves a current configuration.
proof fn lemma_announced_applied_current(
    a: SetAutomaton,
    anns: Seq<EnhancedMatchAnnouncement>,
    k: int,
    leaf: int,
    m: StackModel,
)
    ensures
        announced(a, anns, k, leaf, m) matches Announced::Applied(m2) ==> m2.current is Some,
    decreases anns.len() - k,
{
    if 0 <= k < anns.len() {
        let e = anns[k];
        if unconditional(e) {
            if e.is_duplicating {
                lemma_announced_applied_current(a, anns, k + 1, leaf, with_side(m, leaf, SideModel::Delayed(e)));
            }
        } else {
            lemma_announced_applied_current(a, anns, k + 1, leaf, with_side(m, leaf, SideModel::Check(e)));
        }
    }
}

/// Going back with side information left makes the configuration of its
/// last piece current again and keeps all of it, so that the next step
/// takes that piece up.
pub proof fn lemma_backed_resumes(m: StackModel)
    requires
        m.side.len() > 0,
    ensures
        backed(m).current == Some(m.side.last().0),
        backed(m).side == m.side,
{
    let d = m.side.last().0 as int;
    assert(rolled_back_model(m.side, d, false) == m.side);
}

/// The exploration ends only once no side information is left: every
/// branch still to explore, delayed rule and rule to check that is on the
/// side when a step is taken is taken up before the exploration ends,
/// unless a rule applied below it drops it.
pub proof fn lemma_sabre_ends_clean(a: SetAutomaton, m: StackModel, fuel: nat)
    requires
        sabre_step(a, m, fuel) matches Some(m2) && m2.current is None,
    ensures
        sabre_step(a, m, fuel)->0.side.len() == 0,
{
    let leaf = m.current->0 as int;
    if !(m.side.len() > 0 && m.side.last().0 == leaf) {
        let si = m.configs[leaf].0;
        let state = a.states@[si as int];
        let sub = subterm_at(m.terms[leaf], state.label@)->0;
        let symbol = data_function_symbol(sub);
        if !symbol.variable {
            if let Some(j) = first_transition(state.transitions@, symbol.symbol, 0) {
                let tr = state.transitions@[j];
                lemma_announced_applied_current(a, tr.announcements@, 0, leaf, m);
            }
        }
    }
}

/// A larger budget does not change a normal form that the stack based
/// rewriter finds: the budget only cuts the exploration short.
pub proof fn lemma_sabre_more_fuel(a: SetAutomaton, t: Term, fuel: nat)
    requires
        sabre_normal_form(a, t, fuel) is Some,
    ensures
        sabre_normal_form(a, t, fuel + 1) == sabre_normal_form(a, t, fuel),
{
    lemma_sabre_normal_form_fuel(a, t, fuel, fuel + 1);
}

proof fn lemma_sabre_normal_form_fuel(a: SetAutomaton, t: Term, f: nat, f2: nat)
    requires
        sabre_normal_form(a, t, f) is Some,
        f <= f2,
    ensures
        sabre_normal_form(a, t, f2) == sabre_normal_form(a, t, f),
    decreases f, 3nat, 0int,
{
    lemma_sabre_run_fuel(a, initial_stack(t), f, f, f2, f2);
}

proof fn lemma_sabre_run_fuel(a: SetAutomaton, m: StackModel, s: nat, f: nat, s2: nat, f2: nat)
    requires
        sabre_run(a, m, s, f) is Some,
        s <= s2,
        f <= f2,
    ensures
        sabre_run(a, m, s2, f2) == sabre_run(a, m, s, f),
    decreases f, 2nat, s,
{
    if m.current is Some {
        lemma_sabre_step_fuel(a, m, f, f2);
        let m2 = sabre_step(a, m, f)->0;
        lemma_sabre_run_fuel(a, m2, (s - 1) as nat, f, (s2 - 1) as nat, f2);
    }
}

proof fn lemma_sabre_step_fuel(a: SetAutomaton, m: StackModel, f: nat, f2: nat)
    requires
        sabre_step(a, m, f) is Some,
        f <= f2,
    ensures
        sabre_step(a, m, f2) == sabre_step(a, m, f),
    decreases f, 1nat, 0int,
{
    let leaf = m.current->0 as int;
    if !(m.side.len() > 0 && m.side.last().0 == leaf) {
        lemma_sabre_observed_fuel(a, m, leaf, f, f2);
    }
    if m.side.len() > 0 && m.side.last().0 == leaf {
        if let SideModel::Check(e) = m.side.last().1 {
            let m1 = StackModel { side: m.side.drop_last(), ..m };
            let u = m1.terms[leaf];
            if classes_checkable(u, e.equivalence_classes@) && classes_hold(u, classes_view(e.equivalence_classes@)) {
                lemma_sabre_conditions_fuel(a, e, u, 0, (f - 1) as nat, (f2 - 1) as nat);
            }
        }
    }
}

proof fn lemma_sabre_observed_fuel(a: SetAutomaton, m: StackModel, leaf: int, f: nat, f2: nat)
    requires
        observed(a, m, leaf, f) is Some,
        f <= f2,
    ensures
        observed(a, m, leaf, f2) == observed(a, m, leaf, f),
    decreases f, 0nat, 0int,
{
    let si = m.configs[leaf].0;
    let state = a.states@[si as int];
    let sub = subterm_at(m.terms[leaf], state.label@)->0;
    if f > 0 {
        if sabre_normal_forms(a, data_arguments(sub), (f - 1) as nat) is Some {
            lemma_sabre_normal_forms_fuel(a, data_arguments(sub), (f - 1) as nat, (f2 - 1) as nat);
        }
    }
}

proof fn lemma_sabre_normal_forms_fuel(a: SetAutomaton, ts: Seq<Term>, f: nat, f2: nat)
    requires
        sabre_normal_forms(a, ts, f) is Some,
        f <= f2,
    ensures
        sabre_normal_forms(a, ts, f2) == sabre_normal_forms(a, ts, f),
    decreases f, 5nat, ts.len(),
{
    if ts.len() > 0 {
        lemma_sabre_normal_forms_fuel(a, ts.drop_last(), f, f2);
        lemma_sabre_normal_form_fuel(a, ts.last(), f, f2);
    }
}

proof fn lemma_sabre_conditions_fuel(a: SetAutomaton, e: EnhancedMatchAnnouncement, u: Term, k: int, f: nat, f2: nat)
    requires
        sabre_conditions(a, e, u, k, f) is Some,
        f <= f2,
    ensures
        sabre_conditions(a, e, u, k, f2) == sabre_conditions(a, e, u, k, f),
    decreases f, 4nat, e.conditions@.len() - k,
{
    if 0 <= k < e.conditions@.len() {
        let c = e.conditions@[k];
        let pos = e.announcement.position@;
        let sub = subterm_at(u, pos)->0;
        let rhs = sctt_evaluate(c.semi_compressed_rhs@, sub);
        let lhs = sctt_evaluate(c.semi_compressed_lhs@, sub);
        if is_position(u, pos) && sctt_positions_valid(c.semi_compressed_rhs@, sub) && sctt_positions_valid(
            c.semi_compressed_lhs@,
            sub,
        ) {
            if !c.equality || lhs != rhs {
                lemma_sabre_normal_form_fuel(a, rhs, f, f2);
                lemma_sabre_normal_form_fuel(a, lhs, f, f2);
                let rn = sabre_normal_form(a, rhs, f)->0;
                let ln = sabre_normal_form(a, lhs, f)->0;
                if !((!c.equality && ln == rn) || (c.equality && ln != rn)) {
                    lemma_sabre_conditions_fuel(a, e, u, k + 1, f, f2);
                }
            } else {
                lemma_sabre_conditions_fuel(a, e, u, k + 1, f, f2);
            }
        }
    }
}

/// The first transition of the state on the function symbol.
fn transition_index(automaton: &SetAutomaton, state: usize, symbol: usize) -> (result: Option<usize>)
    requires
        state < automaton.states@.len(),
    ensures
        result matches Some(j) ==> j < automaton.states@[state as int].transitions@.len()
            && automaton.states@[state as int].transitions@[j as int].symbol == symbol,
        match result {
            Some(j) => first_transition(automaton.states@[state as int].transitions@, symbol, 0) == Some(j as int),
            None => first_transition(automaton.states@[state as int].transitions@, symbol, 0) is None,
        },
{
    let transitions = &automaton.states[state].transitions;
    let mut j: usize = 0;
    while j < transitions.len()
        invariant
            j <= transitions@.len(),
            *transitions == automaton.states@[state as int].transitions,
            first_transition(transitions@, symbol, 0) == first_transition(transitions@, symbol, j as int),
        decreases transitions@.len() - j,
    {
        if transitions[j].symbol == symbol {
            return Some(j);
        }
        j = j + 1;
    }
    None
}

// A set automaton based rewrite engine described in  Mark Bouwman, Rick Erkens:
// Term Rewriting Based On Set Automaton Matching. CoRR abs/2202.08687 (2022)
pub struct SabreRewriter {
    pub automaton: SetAutomaton,
}

impl RewriteEngine for SabreRewriter {
    fn rewrite(&mut self, term: ATerm) -> (result: Option<ATerm>)
        ensures
            outcome(result) == sabre_normal_form(old(self).automaton, term@, NESTING_BUDGET as nat),
            announces_nothing(old(self).automaton) && result is Some ==> result->0@ == term@,
            *final(self) == *old(self),
    {
        self.stack_based_normalise(term)
    }
}

impl SabreRewriter {
    /// Creates the rewriter for the specification, with an automaton that
    /// announces matches at every position.
    pub fn new(spec: &RewriteSpecification) -> (result: SabreRewriter)
        requires
            rules_usable(rules_view(spec.rewrite_rules@)),
        ensures
            exists|table: Seq<(usize, usize)>, goal_sets: Seq<Seq<GoalModel>>|
                symbol_table_of(rules_terms(supported_rules(rules_view(spec.rewrite_rules@))), table)
                    && automaton_of(
                    result.automaton.states@,
                    goal_sets,
                    supported_rules(rules_view(spec.rewrite_rules@)),
                    table,
                    false,
                ),
            spec.rewrite_rules@.len() == 0 ==> announces_nothing(result.automaton),
    {
        let automaton = SetAutomaton::new(spec, false);
        let result = SabreRewriter { automaton };
        proof {
            let (table, goal_sets) = choose|table: Seq<(usize, usize)>, goal_sets: Seq<Seq<GoalModel>>|
                symbol_table_of(rules_terms(supported_rules(rules_view(spec.rewrite_rules@))), table)
                    && automaton_of(
                    result.automaton.states@,
                    goal_sets,
                    supported_rules(rules_view(spec.rewrite_rules@)),
                    table,
                    false,
                );
            assert(symbol_table_of(rules_terms(supported_rules(rules_view(spec.rewrite_rules@))), table)
                && automaton_of(
                result.automaton.states@,
                goal_sets,
                supported_rules(rules_view(spec.rewrite_rules@)),
                table,
                false,
            ));
            if spec.rewrite_rules@.len() == 0 {
                assert(rules_view(spec.rewrite_rules@) =~= Seq::<RuleModel>::empty());
                assert(supported_rules(Seq::<RuleModel>::empty()) =~= Seq::<RuleModel>::empty());
                assert(rules_terms(Seq::<RuleModel>::empty()) =~= Seq::<Term>::empty());
                if table.len() > 0 {
                    let n = choose|n: nat| #[trigger] occurs_in(Seq::<Term>::empty(), (table.len() - 1) as usize, n);
                    assert(occurs_in(Seq::<Term>::empty(), (table.len() - 1) as usize, n));
                }
                assert(table.len() == 0);
                assert forall|s: int, j: int|
                    0 <= s < result.automaton.states@.len() && 0 <= j < result.automaton.states@[s].transitions@.len()
                        implies (#[trigger] result.automaton.states@[s].transitions@[j]).announcements@.len() == 0 by {
                    assert(result.automaton.states@[s].transitions@.len() == table.len());
                }
            }
        }
        result
    }

    /// Function to rewrite a term. See the module documentation.
    pub fn stack_based_normalise(&mut self, t: ATerm) -> (result: Option<ATerm>)
        ensures
            outcome(result) == sabre_normal_form(old(self).automaton, t@, NESTING_BUDGET as nat),
            announces_nothing(old(self).automaton) && result is Some ==> result->0@ == t@,
            *final(self) == *old(self),
    {
        let mut stats = RewritingStatistics::default();
        SabreRewriter::stack_based_normalise_aux(&self.automaton, &t, &mut stats, NESTING_BUDGET)
    }

    /// Rewrites the term, exploring the configuration tree of the automaton
    /// depth first, in at most `fuel` steps and with conditions nested at
    /// most `fuel` deep. `None` when the fuel runs out or when the automaton
    /// does not fit the term (a state, label or position that does not exist).
    pub fn stack_based_normalise_aux(
        automaton: &SetAutomaton,
        t: &ATerm,
        stats: &mut RewritingStatistics,
        fuel: u64,
    ) -> (result: Option<ATerm>)
        ensures
            outcome(result) == sabre_normal_form(*automaton, t@, fuel as nat),
            announces_nothing(*automaton) && result is Some ==> result->0@ == t@,
            counts_grow(*old(stats), *final(stats)),
            final(stats).rewrite_steps == added(old(stats).rewrite_steps, sabre_rule_count(*automaton, t@, fuel as nat)),
        decreases fuel, 2nat,
    {
        if fuel == 0 {
            return None;
        }
        let ghost target = sabre_normal_form(*automaton, t@, fuel as nat);
        let ghost total = sabre_rule_count(*automaton, t@, fuel as nat);
        let ghost mut consumed: nat = 0;
        // We explore the configuration tree depth first using a ConfigurationStack
        let mut cs = ConfigurationStack::new(0, t.copy());
        assert(cs.terms@[0]@ == terms_view(cs.terms@)[0]);
        assert(cs.model() =~= initial_stack(t@));
        let mut steps: u64 = fuel;

        // Big loop until we know we have a normal form
        loop
            invariant
                cs.wf(),
                fuel > 0,
                target == sabre_normal_form(*automaton, t@, fuel as nat),
                sabre_run(*automaton, cs.model(), steps as nat, fuel as nat) == target,
                announces_nothing(*automaton) ==> consistent(cs) && cs.terms@[0]@ == t@,
                counts_grow(*old(stats), *stats),
                total == sabre_rule_count(*automaton, t@, fuel as nat),
                stats.rewrite_steps == added(old(stats).rewrite_steps, consumed),
                consumed + sabre_run_count(*automaton, cs.model(), steps as nat, fuel as nat) == total,
            ensures
                steps > 0,
                cs.current_node is None,
            decreases steps,
        {
            if steps == 0 {
                return None;
            }
            // Check if there is any configuration leaf left to explore, if not we have found a normal form
            let leaf_index = match cs.get_unexplored_leaf() {
                None => {
                    break;
                },
                Some(leaf_index) => leaf_index,
            };
            steps = steps - 1;
            let ghost m = cs.model();
            let ghost before = stats.rewrite_steps;
            let stepped = SabreRewriter::step(automaton, &mut cs, leaf_index, stats, fuel, Ghost(t@));
            proof {
                lemma_added_twice(old(stats).rewrite_steps, consumed, sabre_step_count(*automaton, m, fuel as nat));
                consumed = consumed + sabre_step_count(*automaton, m, fuel as nat);
            }
            if !stepped {
                return None;
            }
        }
        let ghost pre = cs;
        let result = cs.compute_final_term();
        proof {
            if announces_nothing(*automaton) {
                lemma_lifted_consistent(pre, pre.oldest_reliable_subterm as int, 0);
            }
        }
        Some(result)
    }

    /// Takes one step at the current configuration `leaf_index`: takes up its
    /// last side information, or observes it when it has none. False when
    /// rewriting a condition runs out of fuel or the automaton does not fit
    /// the term.
    fn step<'a>(
        automaton: &'a SetAutomaton,
        cs: &mut ConfigurationStack<'a>,
        leaf_index: usize,
        stats: &mut RewritingStatistics,
        fuel: u64,
        Ghost(t): Ghost<Term>,
    ) -> (result: bool)
        requires
            old(cs).wf(),
            old(cs).current_node == Some(leaf_index),
            fuel > 0,
            announces_nothing(*automaton) ==> consistent(*old(cs)) && old(cs).terms@[0]@ == t,
        ensures
            final(cs).wf(),
            result == sabre_step(*automaton, old(cs).model(), fuel as nat) is Some,
            result ==> final(cs).model() == sabre_step(*automaton, old(cs).model(), fuel as nat)->0,
            announces_nothing(*automaton) ==> consistent(*final(cs)) && final(cs).terms@[0]@ == t,
            counts_grow(*old(stats), *final(stats)),
            final(stats).rewrite_steps == added(
                old(stats).rewrite_steps,
                sabre_step_count(*automaton, old(cs).model(), fuel as nat),
            ),
        decreases fuel, 1nat,
    {
        let ghost before = *cs;
        let ghost m = cs.model();
        assert(m.side.len() == cs.side_branch_stack@.len());
        proof {
            if m.side.len() > 0 {
                assert(m.side.last() == side_model(cs.side_branch_stack@.last()));
            }
        }
        match ConfigurationStack::pop_side_branch_leaf(&mut cs.side_branch_stack, leaf_index) {
            None => SabreRewriter::observe(automaton, cs, leaf_index, stats, fuel, Ghost(t)),
            Some(sit) => {
                let ghost m1 = StackModel { side: m.side.drop_last(), ..m };
                assert(cs.model() =~= m1);
                assert(m1.terms[leaf_index as int] == cs.terms@[leaf_index as int]@);
                match sit {
                    SideInfoType::SideBranch(sb) => {
                        // If there is a SideBranch pick the next child configuration
                        if sb.len() == 0 || !is_position_exec(&cs.terms[leaf_index], &sb[0].0) {
                            return false;
                        }
                        let ghost pre = *cs;
                        cs.grow(leaf_index, sb);
                        proof {
                            if announces_nothing(*automaton) {
                                assert forall|i: int| 0 <= i < cs.side_branch_stack@.len() implies (
                                #[trigger] cs.side_branch_stack@[i]).info is SideBranch by {
                                    if i < pre.side_branch_stack@.len() {
                                        assert(cs.side_branch_stack@[i] == pre.side_branch_stack@[i]);
                                    }
                                }
                                assert(cs.stack@.drop_last() =~= pre.stack@);
                                assert(pre.terms@.last() == pre.terms@[leaf_index as int]);
                                SabreRewriter::lemma_grow_consistent(pre, *cs, sb@[0].0@);
                            }
                        }
                        true
                    },
                    SideInfoType::DelayedRewriteRule(ema) => {
                        proof {
                            if announces_nothing(*automaton) {
                                assert(before.side_branch_stack@.last().info is SideBranch);
                            }
                        }
                        // apply the delayed rewrite rule
                        SabreRewriter::apply_rewrite_rule(automaton, ema, leaf_index, cs, stats)
                    },
                    SideInfoType::EquivalenceAndConditionCheck(ema) => {
                        proof {
                            if announces_nothing(*automaton) {
                                assert(before.side_branch_stack@.last().info is SideBranch);
                            }
                        }
                        // Apply the delayed rewrite rule if the conditions hold
                        let applies = if InnermostRewriter::classes_checkable_exec(
                            &cs.terms[leaf_index],
                            &ema.equivalence_classes,
                        ) && check_equivalence_classes(&cs.terms[leaf_index], ema.equivalence_classes.as_slice()) {
                            match SabreRewriter::conditions_hold(automaton, ema, &cs.terms[leaf_index], stats, fuel - 1) {
                                None => {
                                    return false;
                                },
                                Some(holds) => holds,
                            }
                        } else {
                            false
                        };
                        proof {
                            if classes_checkable(m1.terms[leaf_index as int], ema.equivalence_classes@) && classes_hold(
                                m1.terms[leaf_index as int],
                                classes_view(ema.equivalence_classes@),
                            ) {
                                lemma_added_twice(
                                    old(stats).rewrite_steps,
                                    sabre_conditions_count(*automaton, *ema, m1.terms[leaf_index as int], 0, (fuel - 1) as nat),
                                    1,
                                );
                            }
                        }
                        if applies {
                            SabreRewriter::apply_rewrite_rule(automaton, ema, leaf_index, cs, stats)
                        } else {
                            // The children of this configuration have been explored: go on with the
                            // previous configuration with side information.
                            SabreRewriter::back_to_side_info(cs, Ghost(*automaton), Ghost(t));
                            true
                        }
                    },
                }
            },
        }
    }

    /// Observes the symbol at the label of the state of configuration
    /// `leaf_index`, which has no side information, and takes the transition
    /// on it. False when the automaton does not fit the term.
    fn observe<'a>(
        automaton: &'a SetAutomaton,
        cs: &mut ConfigurationStack<'a>,
        leaf_index: usize,
        stats: &mut RewritingStatistics,
        fuel: u64,
        Ghost(t): Ghost<Term>,
    ) -> (result: bool)
        requires
            old(cs).wf(),
            old(cs).current_node == Some(leaf_index),
            fuel > 0,
            announces_nothing(*automaton) ==> consistent(*old(cs)) && old(cs).terms@[0]@ == t,
        ensures
            final(cs).wf(),
            result == observed(*automaton, old(cs).model(), leaf_index as int, fuel as nat) is Some,
            result ==> final(cs).model() == observed(*automaton, old(cs).model(), leaf_index as int, fuel as nat)->0,
            announces_nothing(*automaton) ==> consistent(*final(cs)) && final(cs).terms@[0]@ == t,
            counts_grow(*old(stats), *final(stats)),
            result ==> final(stats).symbol_comparisons >= one_more(old(stats).symbol_comparisons),
            final(stats).rewrite_steps == added(
                old(stats).rewrite_steps,
                sabre_observed_count(*automaton, old(cs).model(), leaf_index as int, fuel as nat),
            ),
        decreases fuel, 0nat,
    {
        let ghost a = *automaton;
        let ghost m = cs.model();
        // Observe a symbol according to the state label of the set automaton.
        assert(m.configs[leaf_index as int] == config_model(cs.stack@[leaf_index as int]));
        assert(m.terms[leaf_index as int] == cs.terms@[leaf_index as int]@);
        let state_index = cs.stack[leaf_index].state;
        if state_index >= automaton.states.len() {
            return false;
        }
        let state = &automaton.states[state_index];
        if !is_position_exec(&cs.terms[leaf_index], &state.label) {
            return false;
        }
        let pos = get_position(&cs.terms[leaf_index], &state.label);
        let function_symbol = get_data_function_symbol(&pos);
        stats.symbol_comparisons = stats.symbol_comparisons.saturating_add(1);

        if function_symbol.is_variable() {
            // There is nothing to observe at a variable: go back to the previous
            // configuration with side information.
            SabreRewriter::back_to_side_info(cs, Ghost(*automaton), Ghost(t));
            return true;
        }
        // Get the transition belonging to the observed symbol
        let j = transition_index(automaton, state_index, function_symbol.get_head_symbol());
        match j {
            None => {
                // The symbol occurs in no rule, so no rule matches here or above through
                // this position: its arguments are rewritten on their own, the result is
                // put at the label, and we go back to the previous configuration with
                // side information.
                let rewritten = match SabreRewriter::normalise_arguments(automaton, &pos, stats, fuel - 1) {
                    None => {
                        return false;
                    },
                    Some(r) => r,
                };
                let ghost pre = *cs;
                proof {
                    if announces_nothing(*automaton) {
                        lemma_replace_with_own_subterm(pre.terms@[leaf_index as int]@, state.label@);
                    }
                }
                cs.prune(automaton, leaf_index, rewritten);
                proof {
                    if announces_nothing(*automaton) {
                        lemma_rolled_back_branches(pre.side_branch_stack@, leaf_index as int, true);
                    }
                    if announces_nothing(*automaton) {
                        assert(terms_view(cs.terms@) =~= terms_view(pre.terms@));
                        assert forall|i: int| 0 <= i < cs.terms@.len() implies cs.terms@[i]@ == pre.terms@[i]@ by {
                            assert(terms_view(cs.terms@)[i] == cs.terms@[i]@);
                            assert(terms_view(pre.terms@)[i] == pre.terms@[i]@);
                        }
                        assert(cs.stack@ =~= pre.stack@);
                    }
                }
                SabreRewriter::back_to_side_info(cs, Ghost(*automaton), Ghost(t));
                true
            },
            Some(j) => {
                let tr = &state.transitions[j];
                let mut rule_applied = false;
                let mut k: usize = 0;
                // Loop over the match announcements of the transition
                while k < tr.announcements.len()
                    invariant_except_break
                        leaf_index + 1 == cs.stack@.len(),
                        cs.current_node == Some(leaf_index),
                        !rule_applied,
                        stats.rewrite_steps == old(stats).rewrite_steps,
                        announced(a, tr.announcements@, 0, leaf_index as int, m) == announced(
                            a,
                            tr.announcements@,
                            k as int,
                            leaf_index as int,
                            cs.model(),
                        ),
                    invariant
                        cs.wf(),
                        a == *automaton,
                        m == old(cs).model(),
                        k <= tr.announcements@.len(),
                        sabre_observed_count(a, m, leaf_index as int, fuel as nat) == (if announced(
                            a,
                            tr.announcements@,
                            0,
                            leaf_index as int,
                            m,
                        ) is Pending {
                            0nat
                        } else {
                            1nat
                        }),
                        observed(a, m, leaf_index as int, fuel as nat) == transitioned(
                            *tr,
                            leaf_index as int,
                            announced(a, tr.announcements@, 0, leaf_index as int, m),
                        ),
                        announces_nothing(*automaton) ==> consistent(*cs) && cs.terms@[0]@ == t,
                        announces_nothing(*automaton) ==> tr.announcements@.len() == 0,
                        counts_grow(*old(stats), *stats),
                        stats.symbol_comparisons >= one_more(old(stats).symbol_comparisons),
                    ensures
                        !rule_applied ==> leaf_index + 1 == cs.stack@.len() && cs.current_node == Some(leaf_index)
                            && announced(a, tr.announcements@, 0, leaf_index as int, m) == Announced::Pending(cs.model()),
                        rule_applied ==> announced(a, tr.announcements@, 0, leaf_index as int, m) == Announced::Applied(
                            cs.model(),
                        ),
                        rule_applied ==> stats.rewrite_steps == one_more(old(stats).rewrite_steps),
                        !rule_applied ==> stats.rewrite_steps == old(stats).rewrite_steps,
                    decreases tr.announcements@.len() - k,
                {
                    let ema = &tr.announcements[k];
                    let ghost mk = cs.model();
                    if ema.conditions.len() == 0 && ema.equivalence_classes.len() == 0 {
                        if ema.is_duplicating {
                            // We do not want to apply duplicating rules straight away
                            cs.side_branch_stack.push(
                                SideInfo {
                                    corresponding_configuration: leaf_index,
                                    info: SideInfoType::DelayedRewriteRule(ema),
                                },
                            );
                            assert(cs.model() =~= with_side(mk, leaf_index as int, SideModel::Delayed(*ema)));
                        } else {
                            // For a rewrite rule that is not duplicating or has a condition we just apply it straight away
                            if !SabreRewriter::apply_rewrite_rule(automaton, ema, leaf_index, cs, stats) {
                                assert(*ema == tr.announcements@[k as int]);
                                return false;
                            }
                            rule_applied = true;
                            break;
                        }
                    } else {
                        // We delay the condition checks
                        cs.side_branch_stack.push(
                            SideInfo {
                                corresponding_configuration: leaf_index,
                                info: SideInfoType::EquivalenceAndConditionCheck(ema),
                            },
                        );
                        assert(cs.model() =~= with_side(mk, leaf_index as int, SideModel::Check(*ema)));
                    }
                    k = k + 1;
                }
                if !rule_applied {
                    if tr.destinations.len() == 0 {
                        // If there is no destination we are done matching and go back to the previous
                        // configuration on the stack with information on the side stack.
                        // Note, it could be that we stay at the same configuration and apply a rewrite
                        // rule that was just discovered whilst exploring this configuration.
                        SabreRewriter::back_to_side_info(cs, Ghost(*automaton), Ghost(t));
                    } else {
                        // Grow the bud; if there is more than one destination a SideBranch object will be placed on the side stack
                        assert(cs.model().terms[leaf_index as int] == cs.terms@[leaf_index as int]@);
                        if !is_position_exec(&cs.terms[leaf_index], &tr.destinations[0].0) {
                            return false;
                        }
                        let ghost pre = *cs;
                        cs.grow(leaf_index, tr.destinations.as_slice());
                        proof {
                            if announces_nothing(*automaton) {
                                assert forall|i: int| 0 <= i < cs.side_branch_stack@.len() implies (
                                #[trigger] cs.side_branch_stack@[i]).info is SideBranch by {
                                    if i < pre.side_branch_stack@.len() {
                                        assert(cs.side_branch_stack@[i] == pre.side_branch_stack@[i]);
                                    }
                                }
                                assert(cs.stack@.drop_last() =~= pre.stack@);
                                assert(pre.terms@.last() == pre.terms@[leaf_index as int]);
                                SabreRewriter::lemma_grow_consistent(pre, *cs, tr.destinations@[0].0@);
                            }
                        }
                    }
                }
                true
            },
        }
    }

    /// Rewrites the arguments of the data expression `s` to normal form, each
    /// with `fuel`, and puts them back in `s`. `None` when one of them has no
    /// normal form within the fuel.
    fn normalise_arguments(
        automaton: &SetAutomaton,
        s: &ATerm,
        stats: &mut RewritingStatistics,
        fuel: u64,
    ) -> (result: Option<ATerm>)
        ensures
            outcome(result) == (match sabre_normal_forms(*automaton, data_arguments(s@), fuel as nat) {
                None => None,
                Some(args) => Some(rebuild(s@, args)),
            }),
            announces_nothing(*automaton) && result is Some ==> result->0@ == s@,
            counts_grow(*old(stats), *final(stats)),
            final(stats).rewrite_steps == added(
                old(stats).rewrite_steps,
                sabre_normal_forms_count(*automaton, data_arguments(s@), fuel as nat),
            ),
        decreases fuel, 4nat,
    {
        let arguments = get_data_arguments(s);
        let ghost ts = terms_view(arguments@);
        let mut args: Vec<ATerm> = Vec::new();
        let mut i: usize = 0;
        assert(ts.take(0) =~= Seq::<Term>::empty());
        while i < arguments.len()
            invariant
                i <= arguments@.len(),
                ts == terms_view(arguments@),
                ts == data_arguments(s@),
                sabre_normal_forms(*automaton, ts.take(i as int), fuel as nat) == Some(terms_view(args@)),
                announces_nothing(*automaton) ==> terms_view(args@) == ts.take(i as int),
                counts_grow(*old(stats), *stats),
                stats.rewrite_steps == added(
                    old(stats).rewrite_steps,
                    sabre_normal_forms_count(*automaton, ts.take(i as int), fuel as nat),
                ),
            decreases arguments@.len() - i,
        {
            let r = SabreRewriter::stack_based_normalise_aux(automaton, &arguments[i], stats, fuel);
            assert(ts.take(i + 1).drop_last() =~= ts.take(i as int));
            assert(ts.take(i + 1).last() == arguments@[i as int]@);
            proof {
                lemma_added_twice(
                    old(stats).rewrite_steps,
                    sabre_normal_forms_count(*automaton, ts.take(i as int), fuel as nat),
                    sabre_rule_count(*automaton, arguments@[i as int]@, fuel as nat),
                );
            }
            match r {
                None => {
                    proof {
                        lemma_sabre_normal_forms_prefix(*automaton, ts, i + 1, fuel as nat);
                        lemma_sabre_normal_forms_count_prefix(*automaton, ts, i + 1, fuel as nat);
                    }
                    return None;
                },
                Some(r) => {
                    let ghost before = terms_view(args@);
                    args.push(r);
                    assert(terms_view(args@) =~= before.push(r@));
                },
            }
            i = i + 1;
        }
        assert(ts.take(i as int) =~= ts);
        let ghost rs = terms_view(args@);
        if is_data_application_exec(s) {
            let mut all: Vec<ATerm> = Vec::new();
            all.push(get_data_function_symbol(s).copy());
            all.append(&mut args);
            assert(terms_view(all@) =~= seq![s@.args[0]] + rs);
            let u = ATerm::new(DATA_APPLICATION, all);
            assert(u@.args =~= seq![s@.args[0]] + rs);
            assert(u@ == rebuild(s@, rs));
            proof {
                if announces_nothing(*automaton) {
                    assert(s@.args =~= seq![s@.args[0]] + s@.args.drop_first());
                    assert(u@ =~= s@);
                }
            }
            Some(u)
        } else {
            Some(s.copy())
        }
    }

    /// Growing a consistent stack by the subterm at a position keeps it
    /// consistent and keeps its root term.
    proof fn lemma_grow_consistent(pre: ConfigurationStack, post: ConfigurationStack, p: Seq<usize>)
        requires
            pre.wf(),
            consistent(pre),
            post.stack@.len() == pre.stack@.len() + 1,
            post.stack@.drop_last() == pre.stack@,
            post.stack@.last().position is Some,
            post.stack@.last().position->0@ == p,
            is_position(pre.terms@.last()@, p),
            terms_view(post.terms@) == terms_view(pre.terms@).push(subterm_at(pre.terms@.last()@, p)->0),
            forall|i: int| 0 <= i < post.side_branch_stack@.len() ==> (#[trigger] post.side_branch_stack@[i]).info is SideBranch,
        ensures
            consistent(post),
            post.terms@[0]@ == pre.terms@[0]@,
    {
        let n = pre.stack@.len() as int;
        assert(terms_view(post.terms@).len() == post.terms@.len());
        assert(post.terms@.len() == n + 1);
        assert forall|i: int| 0 <= i <= n implies #[trigger] post.terms@[i]@ == if i < n {
            pre.terms@[i]@
        } else {
            subterm_at(pre.terms@.last()@, p)->0
        } by {
            assert(terms_view(post.terms@)[i] == post.terms@[i]@);
            if i < n {
                assert(terms_view(pre.terms@)[i] == pre.terms@[i]@);
            }
        }
        assert forall|i: int| 1 <= i < post.stack@.len() implies subterm_at(
            post.terms@[i - 1]@,
            (#[trigger] post.stack@[i]).position->0@,
        ) == Some(post.terms@[i]@) by {
            if i < n {
                assert(post.stack@[i] == post.stack@.drop_last()[i]);
                assert(subterm_at(pre.terms@[i - 1]@, pre.stack@[i].position->0@) == Some(pre.terms@[i]@));
            } else {
                assert(pre.terms@.last() == pre.terms@[n - 1]);
            }
        }
    }

    /// Jumping back in a consistent stack keeps it consistent and keeps its
    /// root term.
    proof fn lemma_jump_back_consistent(pre: ConfigurationStack, post: ConfigurationStack, n: int)
        requires
            pre.wf(),
            consistent(pre),
            0 <= n < pre.stack@.len(),
            post.stack@ == pre.stack@.take(n + 1),
            post.side_branch_stack@ == rolled_back(pre.side_branch_stack@, n, false),
            forall|i: int|
                0 <= i < rolled_back(pre.side_branch_stack@, n, false).len() ==> (#[trigger] rolled_back(
                    pre.side_branch_stack@,
                    n,
                    false,
                )[i]).info is SideBranch,
            n < pre.oldest_reliable_subterm ==> lifted(
                pre.stack@,
                terms_view(pre.terms@),
                pre.oldest_reliable_subterm as int,
                n,
                pre.terms@[pre.oldest_reliable_subterm as int]@,
            ) == pre.terms@[n]@,
            ({
                let up = pre.oldest_reliable_subterm as int;
                let ts = terms_view(pre.terms@);
                if up == 0 || n >= up {
                    terms_view(post.terms@) == ts.take(n + 1)
                } else {
                    terms_view(post.terms@) == ts.take(n + 1).update(n, lifted(pre.stack@, ts, up, n, ts[up]))
                }
            }),
        ensures
            consistent(post),
            post.terms@[0]@ == pre.terms@[0]@,
    {
        let ts = terms_view(pre.terms@);
        let up = pre.oldest_reliable_subterm as int;
        if !(up == 0 || n >= up) {
            assert(ts[up] == pre.terms@[up]@);
            assert(ts[n] == pre.terms@[n]@);
            assert(ts.take(n + 1).update(n, lifted(pre.stack@, ts, up, n, ts[up])) =~= ts.take(n + 1));
        }
        assert(terms_view(post.terms@) =~= ts.take(n + 1));
        assert forall|i: int| 0 <= i < post.terms@.len() implies post.terms@[i]@ == pre.terms@[i]@ by {
            assert(terms_view(post.terms@)[i] == post.terms@[i]@);
            assert(ts[i] == pre.terms@[i]@);
        }
        assert forall|i: int| 1 <= i < post.stack@.len() implies subterm_at(
            post.terms@[i - 1]@,
            (#[trigger] post.stack@[i]).position->0@,
        ) == Some(post.terms@[i]@) by {
            assert(post.stack@[i] == pre.stack@[i]);
            assert(subterm_at(pre.terms@[i - 1]@, pre.stack@[i].position->0@) == Some(pre.terms@[i]@));
        }
    }

    /// Goes back to the last configuration with side information, or ends
    /// the exploration when there is none.
    fn back_to_side_info(cs: &mut ConfigurationStack, Ghost(automaton): Ghost<SetAutomaton>, Ghost(t): Ghost<Term>)
        requires
            old(cs).wf(),
            announces_nothing(automaton) ==> consistent(*old(cs)) && old(cs).terms@[0]@ == t,
        ensures
            final(cs).wf(),
            final(cs).model() == backed(old(cs).model()),
            announces_nothing(automaton) ==> consistent(*final(cs)) && final(cs).terms@[0]@ == t,
    {
        let ghost m = cs.model();
        assert(m.side.len() == cs.side_branch_stack@.len());
        match cs.get_prev_with_side_info() {
            Some(n) => {
                let ghost pre = *cs;
                assert(m.side.last() == side_model(pre.side_branch_stack@.last()));
                cs.jump_back(n);
                proof {
                    if announces_nothing(automaton) {
                        if n < pre.oldest_reliable_subterm {
                            lemma_lifted_consistent(pre, pre.oldest_reliable_subterm as int, n as int);
                        }
                        lemma_rolled_back_branches(pre.side_branch_stack@, n as int, false);
                        SabreRewriter::lemma_jump_back_consistent(pre, *cs, n as int);
                    }
                }
            },
            None => {
                cs.current_node = None;
                assert(cs.model() =~= backed(m));
            },
        }
    }

    /// Apply a rewrite rule and prune back; false when the automaton does
    /// not fit the term.
    fn apply_rewrite_rule<'a>(
        automaton: &'a SetAutomaton,
        ema: &EnhancedMatchAnnouncement,
        leaf_index: usize,
        cs: &mut ConfigurationStack<'a>,
        stats: &mut RewritingStatistics,
    ) -> (result: bool)
        requires
            old(cs).wf(),
            leaf_index < old(cs).stack@.len(),
        ensures
            final(cs).wf(),
            !result ==> *final(cs) == *old(cs),
            result == applied(*automaton, *ema, leaf_index as int, old(cs).model()) is Some,
            result ==> final(cs).model() == applied(*automaton, *ema, leaf_index as int, old(cs).model())->0,
            final(stats).rewrite_steps == one_more(old(stats).rewrite_steps),
            final(stats).symbol_comparisons == old(stats).symbol_comparisons,
            final(stats).recursions == old(stats).recursions,
    {
        stats.rewrite_steps = stats.rewrite_steps.saturating_add(1);
        let ghost m = cs.model();
        assert(m.terms[leaf_index as int] == cs.terms@[leaf_index as int]@);
        let leaf_subterm = &cs.terms[leaf_index];
        if !is_position_exec(leaf_subterm, &ema.announcement.position) {
            return false;
        }
        let redex = get_position(leaf_subterm, &ema.announcement.position);
        if !ema.semi_compressed_rhs.positions_valid(&redex) {
            return false;
        }
        // Computes the new subterm of the configuration
        let new_subterm = ema.semi_compressed_rhs.evaluate(&redex);

        // The match announcement tells us how far we need to prune back.
        if ema.announcement.symbols_seen > leaf_index {
            return false;
        }
        let prune_point = leaf_index - ema.announcement.symbols_seen;
        assert(m.terms[prune_point as int] == cs.terms@[prune_point as int]@);
        assert(m.configs[prune_point as int] == config_model(cs.stack@[prune_point as int]));
        let state = cs.stack[prune_point].state;
        if state >= automaton.states.len() || !is_position_exec(&cs.terms[prune_point], &automaton.states[state].label) {
            return false;
        }
        cs.prune(automaton, prune_point, new_subterm);
        true
    }

    /// Checks the conditions of the announcement on the term of the
    /// configuration (its equivalence classes are checked by the caller), see
    /// [sabre_conditions]; `None` when rewriting a side of a condition runs
    /// out of fuel or the announcement does not fit the term.
    fn conditions_hold(
        automaton: &SetAutomaton,
        ema: &EnhancedMatchAnnouncement,
        leaf: &ATerm,
        stats: &mut RewritingStatistics,
        fuel: u64,
    ) -> (result: Option<bool>)
        ensures
            result == sabre_conditions(*automaton, *ema, leaf@, 0, fuel as nat),
            counts_grow(*old(stats), *final(stats)),
            final(stats).rewrite_steps == added(
                old(stats).rewrite_steps,
                sabre_conditions_count(*automaton, *ema, leaf@, 0, fuel as nat),
            ),
        decreases fuel, 3nat,
    {
        let ghost total = sabre_conditions_count(*automaton, *ema, leaf@, 0, fuel as nat);
        let ghost mut consumed: nat = 0;
        let mut k: usize = 0;
        while k < ema.conditions.len()
            invariant
                k <= ema.conditions@.len(),
                sabre_conditions(*automaton, *ema, leaf@, 0, fuel as nat) == sabre_conditions(
                    *automaton,
                    *ema,
                    leaf@,
                    k as int,
                    fuel as nat,
                ),
                counts_grow(*old(stats), *stats),
                total == sabre_conditions_count(*automaton, *ema, leaf@, 0, fuel as nat),
                stats.rewrite_steps == added(old(stats).rewrite_steps, consumed),
                consumed + sabre_conditions_count(*automaton, *ema, leaf@, k as int, fuel as nat) == total,
            decreases ema.conditions@.len() - k,
        {
            let c = &ema.conditions[k];
            if !is_position_exec(leaf, &ema.announcement.position) {
                return None;
            }
            let subterm = get_position(leaf, &ema.announcement.position);
            if !c.semi_compressed_rhs.positions_valid(&subterm) || !c.semi_compressed_lhs.positions_valid(&subterm) {
                return None;
            }
            let rhs = c.semi_compressed_rhs.evaluate(&subterm);
            let lhs = c.semi_compressed_lhs.evaluate(&subterm);

            // Equality => lhs == rhs.
            if !c.equality || !lhs.equals(&rhs) {
                let ghost cr = sabre_rule_count(*automaton, rhs@, fuel as nat);
                let ghost cl = sabre_rule_count(*automaton, lhs@, fuel as nat);
                let rhs_normal = match SabreRewriter::stack_based_normalise_aux(automaton, &rhs, stats, fuel) {
                    None => {
                        proof {
                            lemma_added_twice(old(stats).rewrite_steps, consumed, cr);
                        }
                        return None;
                    },
                    Some(r) => r,
                };
                proof {
                    lemma_added_twice(old(stats).rewrite_steps, consumed, cr);
                    consumed = consumed + cr;
                }
                let lhs_normal = match SabreRewriter::stack_based_normalise_aux(automaton, &lhs, stats, fuel) {
                    None => {
                        proof {
                            lemma_added_twice(old(stats).rewrite_steps, consumed, cl);
                        }
                        return None;
                    },
                    Some(l) => l,
                };
                proof {
                    lemma_added_twice(old(stats).rewrite_steps, consumed, cl);
                    consumed = consumed + cl;
                }
                let same = lhs_normal.equals(&rhs_normal);

                // If lhs != rhs && !equality OR equality && lhs == rhs.
                if (!c.equality && same) || (c.equality && !same) {
                    return Some(false);
                }
            }
            k = k + 1;
        }
        Some(true)
    }
}

} // verus!
