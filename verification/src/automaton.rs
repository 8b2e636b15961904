use vstd::prelude::*;

use crate::announcement::{
    is_compiled, positions_view, rule_well_formed, AnnouncementModel, EnhancedMatchAnnouncement,
    MatchAnnouncement,
};
use crate::data::{
    data_arguments, data_function_symbol, get_data_arguments, get_data_function_symbol,
    is_data_application, is_data_application_exec, is_data_function_symbol,
    is_data_function_symbol_exec, is_data_variable,
    is_data_variable_exec, is_supported, is_supported_term, symbol_occurs, DATA_APPLICATION,
};
use crate::match_goal::{
    common_prefix_of, goal_positions, goal_without_prefix, goals_view, greatest_common_prefix_of,
    has_root_goal, is_partition, lemma_partition_rules, partitions_view, positions_longer_than,
    rules_of, same_goal_set, same_goals, GoalModel, MatchGoal,
};
use crate::position::{
    comparable, is_prefix, lemma_lex_asymmetric, lemma_lex_irreflexive, lemma_lex_total,
    lemma_lex_transitive, lemma_shortlex_irreflexive, lemma_shortlex_transitive, lex_lt, models, shortlex_lt, sort_by_position, sorted_by_position, ExplicitPosition,
    Positioned,
};
use crate::goal_layers::{
    announcement_set, layered_sets, lemma_fresh_root_layered, obligation_set, goals_layered, lemma_destinations_layered, lemma_gcp_above_fresh, lemma_layered_no_goal_below,
    lemma_new_goals_not_below, no_goal_below,
};
use crate::goal_shape::{
    arities_bounded, goal_in_shape, goals_in_shape, lemma_derivative_defined, lemma_derivative_in_shape,
    lemma_derivative_root, lemma_destinations_label_defined,
    lemma_destinations_in_shape, lemma_fresh_goals_in_shape, lemma_rules_lhs_symbols, lemma_sorted_in_shape,
    symbols_from,
};
use crate::rewrite_specification::{rules_view, ConditionModel, RewriteSpecification, Rule, RuleModel};
use crate::term::{terms_view, ATerm, Term};

verus! {

/// The model of a match obligation.
pub struct ObligationModel {
    pub pattern: Term,
    pub position: Seq<usize>,
}

/// A match obligation: the pattern must match the subterm at the position.
#[derive(Debug)]
pub struct MatchObligation {
    pub pattern: ATerm,
    pub position: ExplicitPosition,
}

impl MatchObligation {
    /// The model of this obligation.
    pub open spec fn view(&self) -> ObligationModel {
        ObligationModel { pattern: self.pattern@, position: self.position@ }
    }

    /// Returns a copy of this obligation.
    pub fn copy(&self) -> (result: MatchObligation)
        ensures
            result@ == self@,
    {
        MatchObligation { pattern: self.pattern.copy(), position: self.position.clone() }
    }
}

impl Clone for MatchObligation {
    fn clone(&self) -> (result: MatchObligation)
        ensures
            result@ == self@,
    {
        self.copy()
    }
}

/// The models of a sequence of obligations.
pub open spec fn obligations_view(s: Seq<MatchObligation>) -> Seq<ObligationModel> {
    s.map_values(|o: MatchObligation| o@)
}

/// The function symbol with the given operation id, as a term.
pub open spec fn symbol_term(f: usize) -> Term {
    Term { symbol: f, variable: false, args: Seq::empty() }
}

/// The data function symbol of `t` is the one with operation id `f`.
pub open spec fn head_is(t: Term, f: usize) -> bool {
    data_function_symbol(t) == symbol_term(f)
}

/// All terms are data variables.
pub open spec fn all_variables(s: Seq<Term>) -> bool {
    forall|i: int| 0 <= i < s.len() ==> is_data_variable(#[trigger] s[i])
}

/// The goal is completed by reading `f` at `label`: its only obligation is
/// at the label, has head `f` and only variables as arguments.
pub open spec fn goal_completed(g: GoalModel, label: Seq<usize>, f: usize) -> bool {
    &&& g.obligations.len() == 1
    &&& g.obligations[0].position == label
    &&& head_is(g.obligations[0].pattern, f)
    &&& all_variables(data_arguments(g.obligations[0].pattern))
}

/// The goal is discarded by reading `f` at `label`: an obligation at the
/// label has another head symbol.
pub open spec fn goal_discarded(g: GoalModel, label: Seq<usize>, f: usize) -> bool {
    exists|j: int|
        0 <= j < g.obligations.len() && (#[trigger] g.obligations[j]).position == label && !head_is(
            g.obligations[j].pattern,
            f,
        )
}

/// No obligation of the goal is at `label`.
pub open spec fn goal_unchanged(g: GoalModel, label: Seq<usize>) -> bool {
    forall|j: int| 0 <= j < g.obligations.len() ==> (#[trigger] g.obligations[j]).position != label
}

/// The goal is reduced: it is neither completed, discarded nor unchanged.
pub open spec fn goal_reduced(g: GoalModel, label: Seq<usize>, f: usize) -> bool {
    !goal_completed(g, label, f) && !goal_discarded(g, label, f) && !goal_unchanged(g, label)
}

/// The counter after one more symbol, wrapping around at `usize::MAX`.
pub open spec fn next_count(n: usize) -> usize {
    if n == usize::MAX {
        0
    } else {
        (n + 1) as usize
    }
}

/// The obligations for the arguments that are not variables: the argument
/// with index `i` (from 0) lies at `label.(i + 2)`.
pub open spec fn argument_obligations(args: Seq<Term>, label: Seq<usize>) -> Seq<ObligationModel>
    decreases args.len(),
{
    if args.len() == 0 {
        Seq::empty()
    } else {
        let rest = argument_obligations(args.drop_last(), label);
        if is_data_variable(args.last()) {
            rest
        } else {
            rest.push(ObligationModel { pattern: args.last(), position: label.push((args.len() + 1) as usize) })
        }
    }
}

/// Reading `f` at `label` replaces an obligation there with head `f` by the
/// obligations of its arguments; other obligations remain.
pub open spec fn reduce_obligation(mo: ObligationModel, label: Seq<usize>, f: usize) -> Seq<ObligationModel> {
    if head_is(mo.pattern, f) && mo.position == label {
        argument_obligations(data_arguments(mo.pattern), label)
    } else {
        seq![mo]
    }
}

/// The reduced obligations, one obligation after the other.
pub open spec fn reduced_obligations(obligations: Seq<ObligationModel>, label: Seq<usize>, f: usize) -> Seq<
    ObligationModel,
>
    decreases obligations.len(),
{
    if obligations.len() == 0 {
        Seq::empty()
    } else {
        reduced_obligations(obligations.drop_last(), label, f) + reduce_obligation(
            obligations.last(),
            label,
            f,
        )
    }
}

/// The unchanged goal after reading a symbol: the symbols seen are counted
/// once the pattern has been entered.
pub open spec fn unchanged_goal(g: GoalModel) -> GoalModel {
    if g.announcement.rule.lhs != g.obligations[0].pattern {
        GoalModel {
            obligations: g.obligations,
            announcement: AnnouncementModel {
                symbols_seen: next_count(g.announcement.symbols_seen),
                ..g.announcement
            },
        }
    } else {
        g
    }
}

/// The reduced goal after reading `f` at `label`, before its obligations are
/// sorted.
pub open spec fn reduced_goal(g: GoalModel, label: Seq<usize>, f: usize) -> GoalModel {
    GoalModel {
        obligations: reduced_obligations(g.obligations, label, f),
        announcement: AnnouncementModel {
            symbols_seen: next_count(g.announcement.symbols_seen),
            ..g.announcement
        },
    }
}

/// The completed, unchanged and reduced goals (the latter with unsorted
/// obligations) after reading `f` at `label`, each in the order of `gs`.
pub open spec fn derivative_of(gs: Seq<GoalModel>, label: Seq<usize>, f: usize) -> (
    Seq<GoalModel>,
    Seq<GoalModel>,
    Seq<GoalModel>,
)
    decreases gs.len(),
{
    if gs.len() == 0 {
        (Seq::empty(), Seq::empty(), Seq::empty())
    } else {
        let rest = derivative_of(gs.drop_last(), label, f);
        let g = gs.last();
        if goal_completed(g, label, f) {
            (rest.0.push(g), rest.1, rest.2)
        } else if goal_discarded(g, label, f) {
            rest
        } else if goal_unchanged(g, label) {
            (rest.0, rest.1.push(unchanged_goal(g)), rest.2)
        } else {
            (rest.0, rest.1, rest.2.push(reduced_goal(g, label, f)))
        }
    }
}

/// The obligations are sorted by the length of their positions.
pub open spec fn sorted_by_length(s: Seq<ObligationModel>) -> bool {
    forall|i: int, j: int| 0 <= i < j < s.len() ==> s[i].position.len() <= s[j].position.len()
}

/// `b` holds the goals of `a` with their obligations sorted by the length of
/// their positions.
pub open spec fn obligations_sorted_from(a: Seq<GoalModel>, b: Seq<GoalModel>) -> bool {
    &&& a.len() == b.len()
    &&& forall|i: int|
        0 <= i < a.len() ==> (#[trigger] b[i]).announcement == a[i].announcement
            && b[i].obligations.to_multiset() == a[i].obligations.to_multiset() && sorted_by_length(
            b[i].obligations,
        )
}

/// Every goal has an obligation, and every obligation at `label` with head
/// `f` that is reduced has at most `arity` arguments.
pub open spec fn derivative_defined(gs: Seq<GoalModel>, label: Seq<usize>, f: usize, arity: usize) -> bool {
    forall|k: int|
        0 <= k < gs.len() ==> (#[trigger] gs[k]).obligations.len() > 0 && (goal_reduced(gs[k], label, f)
            ==> forall|j: int|
            0 <= j < gs[k].obligations.len() && (#[trigger] gs[k].obligations[j]).position == label
                && head_is(gs[k].obligations[j].pattern, f) ==> data_arguments(
                gs[k].obligations[j].pattern,
            ).len() <= arity)
}

/// Sorts the obligations by the length of their positions; obligations with
/// positions of the same length keep their order.
fn sort_by_length(v: Vec<MatchObligation>) -> (result: Vec<MatchObligation>)
    ensures
        obligations_view(result@).to_multiset() == obligations_view(v@).to_multiset(),
        sorted_by_length(obligations_view(result@)),
{
    let ghost original = obligations_view(v@);
    let mut input = v;
    let mut result: Vec<MatchObligation> = Vec::new();
    let ghost mut k: int = 0;
    assert(original.take(0) =~= obligations_view(result@));
    while input.len() > 0
        invariant
            0 <= k <= original.len(),
            obligations_view(input@) == original.skip(k),
            obligations_view(result@).to_multiset() == original.take(k).to_multiset(),
            sorted_by_length(obligations_view(result@)),
        decreases input@.len(),
    {
        let ghost old_input = input@;
        assert(obligations_view(old_input).len() == old_input.len());
        assert(k < original.len());
        assert(original.skip(k)[0] == original[k]);
        let x = input.remove(0);
        assert(obligations_view(old_input)[0] == x@);
        assert(x@ == original[k]);
        let n = x.position.len();
        let mut j: usize = 0;
        while j < result.len() && result[j].position.len() <= n
            invariant
                j <= result@.len(),
                n == x@.position.len(),
                forall|i: int| 0 <= i < j ==> (#[trigger] obligations_view(result@)[i]).position.len() <= n,
            decreases result@.len() - j,
        {
            assert(obligations_view(result@)[j as int] == result@[j as int]@);
            j = j + 1;
        }
        let ghost before = obligations_view(result@);
        if j < result.len() {
            assert(before[j as int] == result@[j as int]@);
        }
        result.insert(j, x);
        proof {
            assert(obligations_view(result@) =~= before.insert(j as int, x@));
            assert(original.take(k + 1) =~= original.take(k).push(x@));
            vstd::seq_lib::to_multiset_insert(before, j as int, x@);
            vstd::seq_lib::to_multiset_build(original.take(k), x@);
            let r = obligations_view(result@);
            assert forall|a: int, b: int| 0 <= a < b < r.len() implies r[a].position.len()
                <= r[b].position.len() by {
                if b < j {
                } else if a < j && b == j {
                } else if a < j {
                    assert(r[b] == before[b - 1]);
                } else if a == j {
                    assert(r[b] == before[b - 1]);
                } else {
                    assert(r[a] == before[a - 1]);
                    assert(r[b] == before[b - 1]);
                }
            }
            assert forall|i: int| 0 <= i < input@.len() implies obligations_view(input@)[i] == original.skip(
                k + 1,
            )[i] by {
                assert(input@[i] == old_input[i + 1]);
                assert(obligations_view(old_input)[i + 1] == original.skip(k)[i + 1]);
            }
            assert(obligations_view(input@) =~= original.skip(k + 1));
            k = k + 1;
        }
    }
    assert(original.take(k) =~= original);
    result
}

/// Whether the data function symbol of the term is the one with operation id
/// `f`.
fn head_is_exec(t: &ATerm, f: usize) -> (result: bool)
    ensures
        result == head_is(t@, f),
{
    let h = get_data_function_symbol(t);
    let result = !h.is_variable() && h.arity() == 0 && h.get_head_symbol() == f;
    if result {
        assert(h@.args =~= Seq::<Term>::empty());
    }
    result
}

/// Whether all terms are data variables.
fn all_variables_exec(args: &[ATerm]) -> (result: bool)
    ensures
        result == all_variables(terms_view(args@)),
{
    let mut i: usize = 0;
    while i < args.len()
        invariant
            i <= args@.len(),
            forall|j: int| 0 <= j < i ==> is_data_variable(#[trigger] terms_view(args@)[j]),
        decreases args@.len() - i,
    {
        assert(terms_view(args@)[i as int] == args@[i as int]@);
        if !is_data_variable_exec(&args[i]) {
            return false;
        }
        i = i + 1;
    }
    true
}

/// The obligations for the non-variable arguments of a pattern read at
/// `label`.
fn argument_obligations_exec(args: &[ATerm], label: &ExplicitPosition) -> (result: Vec<MatchObligation>)
    requires
        args@.len() < usize::MAX,
    ensures
        obligations_view(result@) == argument_obligations(terms_view(args@), label@),
{
    let ghost ts = terms_view(args@);
    let mut result: Vec<MatchObligation> = Vec::new();
    let mut index: usize = 0;
    assert(ts.take(0) =~= Seq::<Term>::empty());
    assert(obligations_view(result@) =~= Seq::<ObligationModel>::empty());
    while index < args.len()
        invariant
            index <= args@.len(),
            args@.len() < usize::MAX,
            ts == terms_view(args@),
            obligations_view(result@) == argument_obligations(ts.take(index as int), label@),
        decreases args@.len() - index,
    {
        let t = &args[index];
        assert(ts.take(index + 1).drop_last() =~= ts.take(index as int));
        assert(ts.take(index + 1).last() == t@);
        let ghost before = obligations_view(result@);
        if !is_data_variable_exec(t) {
            let mut new_pos = label.clone();
            new_pos.push(index + 2);
            result.push(MatchObligation { pattern: t.copy(), position: new_pos });
            assert(obligations_view(result@) =~= before.push(
                ObligationModel { pattern: t@, position: label@.push((index + 2) as usize) },
            ));
        }
        index = index + 1;
    }
    assert(ts.take(args@.len() as int) =~= ts);
    result
}

/// The result of reading a symbol in a state: the goals that are completed,
/// those that are unchanged and those that are reduced.
#[derive(Debug)]
pub struct Derivative {
    pub completed: Vec<MatchGoal>,
    pub unchanged: Vec<MatchGoal>,
    pub reduced: Vec<MatchGoal>,
}

/// A state of the set automaton.
#[derive(Debug)]
pub struct State {
    pub label: ExplicitPosition,
    /// Note that transitions are indexed by the index given by the OpId from a function symbol.
    pub transitions: Vec<Transition>,
    pub match_goals: Vec<MatchGoal>,
}

/// A transition of the set automaton on a function symbol.
#[derive(Debug)]
pub struct Transition {
    pub symbol: usize,
    pub announcements: Vec<EnhancedMatchAnnouncement>,
    pub destinations: Vec<(ExplicitPosition, usize)>,
}

impl State {
    /// For a transition 'symbol' of state 'self' this function computes which match goals are
    /// completed, unchanged and reduced.
    pub(crate) fn compute_derivative(&self, symbol: usize, arity: usize) -> (result: Derivative)
        requires
            derivative_defined(goals_view(self.match_goals@), self.label@, symbol, arity),
        ensures
            goals_view(result.completed@) == derivative_of(goals_view(self.match_goals@), self.label@, symbol).0,
            goals_view(result.unchanged@) == derivative_of(goals_view(self.match_goals@), self.label@, symbol).1,
            obligations_sorted_from(
                derivative_of(goals_view(self.match_goals@), self.label@, symbol).2,
                goals_view(result.reduced@),
            ),
    {
        let ghost gs = goals_view(self.match_goals@);
        let ghost label = self.label@;
        let mut completed: Vec<MatchGoal> = Vec::new();
        let mut unchanged: Vec<MatchGoal> = Vec::new();
        let mut reduced: Vec<MatchGoal> = Vec::new();
        let mut k: usize = 0;
        assert(gs.take(0) =~= Seq::<GoalModel>::empty());
        assert(goals_view(completed@) =~= Seq::<GoalModel>::empty());
        assert(goals_view(unchanged@) =~= Seq::<GoalModel>::empty());
        while k < self.match_goals.len()
            invariant
                k <= gs.len(),
                gs == goals_view(self.match_goals@),
                label == self.label@,
                derivative_defined(gs, label, symbol, arity),
                goals_view(completed@) == derivative_of(gs.take(k as int), label, symbol).0,
                goals_view(unchanged@) == derivative_of(gs.take(k as int), label, symbol).1,
                obligations_sorted_from(derivative_of(gs.take(k as int), label, symbol).2, goals_view(reduced@)),
            decreases gs.len() - k,
        {
            let mg = &self.match_goals[k];
            let ghost g = gs[k as int];
            assert(mg@ == g);
            assert(gs.take(k + 1).drop_last() =~= gs.take(k as int));
            assert(gs.take(k + 1).last() == g);
            let ghost d0 = derivative_of(gs.take(k as int), label, symbol);
            let ghost before_completed = goals_view(completed@);
            let ghost before_unchanged = goals_view(unchanged@);
            let ghost before_reduced = goals_view(reduced@);
            assert(g.obligations.len() > 0);
            let n = mg.obligations.len();
            // Completed match goals
            let is_completed = n == 1 && mg.obligations[0].position.same(&self.label) && head_is_exec(
                &mg.obligations[0].pattern,
                symbol,
            ) && all_variables_exec(get_data_arguments(&mg.obligations[0].pattern));
            if is_completed {
                assert(g.obligations[0] == mg.obligations@[0]@);
                completed.push(mg.copy());
                assert(goals_view(completed@) =~= before_completed.push(g));
            } else {
                proof {
                    if n == 1 {
                        assert(g.obligations[0] == mg.obligations@[0]@);
                    }
                }
                // Match goal is discarded since head symbol does not match.
                let mut discarded = false;
                let mut at_label = false;
                let mut j: usize = 0;
                while j < n
                    invariant
                        j <= n,
                        n == g.obligations.len(),
                        mg@ == g,
                        label == self.label@,
                        discarded == exists|i: int|
                            0 <= i < j && (#[trigger] g.obligations[i]).position == label && !head_is(
                                g.obligations[i].pattern,
                                symbol,
                            ),
                        at_label == exists|i: int| 0 <= i < j && (#[trigger] g.obligations[i]).position == label,
                    decreases n - j,
                {
                    let mo = &mg.obligations[j];
                    assert(g.obligations[j as int] == mo@);
                    if mo.position.same(&self.label) {
                        at_label = true;
                        if !head_is_exec(&mo.pattern, symbol) {
                            discarded = true;
                        }
                    }
                    j = j + 1;
                }
                if discarded {
                } else if !at_label {
                    // Unchanged match goals
                    let mut goal = mg.copy();
                    assert(g.obligations[0] == mg.obligations@[0]@);
                    if !mg.announcement.rule.lhs.equals(&mg.obligations[0].pattern) {
                        let seen = goal.announcement.symbols_seen;
                        goal.announcement.symbols_seen = if seen == usize::MAX {
                            0
                        } else {
                            seen + 1
                        };
                    }
                    assert(goal@ == unchanged_goal(g));
                    unchanged.push(goal);
                    assert(goals_view(unchanged@) =~= before_unchanged.push(unchanged_goal(g)));
                } else {
                    // Reduce match obligations
                    let mut new_obligations: Vec<MatchObligation> = Vec::new();
                    let mut j: usize = 0;
                    assert(g.obligations.take(0) =~= Seq::<ObligationModel>::empty());
                    assert(obligations_view(new_obligations@) =~= Seq::<ObligationModel>::empty());
                    while j < n
                        invariant
                            j <= n,
                            n == g.obligations.len(),
                            mg@ == g,
                            gs[k as int] == g,
                            k < gs.len(),
                            label == self.label@,
                            goal_reduced(g, label, symbol),
                            derivative_defined(gs, label, symbol, arity),
                            obligations_view(new_obligations@) == reduced_obligations(
                                g.obligations.take(j as int),
                                label,
                                symbol,
                            ),
                        decreases n - j,
                    {
                        let mo = &mg.obligations[j];
                        assert(g.obligations[j as int] == mo@);
                        assert(g.obligations.take(j + 1).drop_last() =~= g.obligations.take(j as int));
                        assert(g.obligations.take(j + 1).last() == mo@);
                        let ghost before = obligations_view(new_obligations@);
                        if head_is_exec(&mo.pattern, symbol) && mo.position.same(&self.label) {
                            // Reduced match obligation
                            let args = get_data_arguments(&mo.pattern);
                            assert(args@.len() == terms_view(args@).len());
                            assert(data_arguments(mo@.pattern).len() <= arity);
                            let pattern_arity = mo.pattern.arity();
                            assert(args@.len() < usize::MAX) by {
                                assert(terms_view(args@) == data_arguments(mo@.pattern));
                                assert(mo@.pattern.args.len() == pattern_arity);
                            }
                            let mut more = argument_obligations_exec(args, &self.label);
                            new_obligations.append(&mut more);
                            assert(obligations_view(new_obligations@) =~= before + reduce_obligation(
                                mo@,
                                label,
                                symbol,
                            ));
                        } else {
                            // remains unchanged
                            new_obligations.push(mo.copy());
                            assert(obligations_view(new_obligations@) =~= before + reduce_obligation(
                                mo@,
                                label,
                                symbol,
                            ));
                        }
                        j = j + 1;
                    }
                    assert(g.obligations.take(n as int) =~= g.obligations);
                    let sorted = sort_by_length(new_obligations);
                    let seen = mg.announcement.symbols_seen;
                    let goal = MatchGoal {
                        obligations: sorted,
                        announcement: MatchAnnouncement {
                            rule: mg.announcement.rule.copy(),
                            position: mg.announcement.position.clone(),
                            symbols_seen: if seen == usize::MAX {
                                0
                            } else {
                                seen + 1
                            },
                        },
                    };
                    reduced.push(goal);
                    proof {
                        let rg = reduced_goal(g, label, symbol);
                        let after = goals_view(reduced@);
                        assert(after =~= before_reduced.push(goal@));
                        assert(goal@.announcement == rg.announcement);
                        assert forall|i: int| 0 <= i < after.len() implies (#[trigger] after[i]).announcement
                            == d0.2.push(rg)[i].announcement && after[i].obligations.to_multiset()
                            == d0.2.push(rg)[i].obligations.to_multiset() && sorted_by_length(
                            after[i].obligations,
                        ) by {
                            if i < before_reduced.len() {
                                assert(after[i] == before_reduced[i]);
                                assert(d0.2.push(rg)[i] == d0.2[i]);
                            }
                        }
                    }
                }
            }
            k = k + 1;
        }
        assert(gs.take(gs.len() as int) =~= gs);
        Derivative { completed, unchanged, reduced }
    }
}

/// The model of where a hypertransition leads.
pub enum DestinationModel {
    InitialState,
    Goals(Seq<GoalModel>),
}

/// Where a hypertransition leads: to the initial state, or to the state with
/// the given match goals.
#[derive(Debug)]
pub enum GoalsOrInitial {
    InitialState,
    Goals(Vec<MatchGoal>),
}

impl GoalsOrInitial {
    /// The model of this destination.
    pub open spec fn view(&self) -> DestinationModel {
        match self {
            GoalsOrInitial::InitialState => DestinationModel::InitialState,
            GoalsOrInitial::Goals(goals) => DestinationModel::Goals(goals_view(goals@)),
        }
    }
}

impl Positioned for (ExplicitPosition, GoalsOrInitial) {
    type Model = (Seq<usize>, DestinationModel);

    open spec fn model(&self) -> (Seq<usize>, DestinationModel) {
        (self.0@, self.1@)
    }

    open spec fn key(&self) -> Seq<usize> {
        self.0@
    }

    fn position(&self) -> (result: &ExplicitPosition) {
        &self.0
    }
}

impl Positioned for EnhancedMatchAnnouncement {
    type Model = AnnouncementModel;

    open spec fn model(&self) -> AnnouncementModel {
        self.announcement@
    }

    open spec fn key(&self) -> Seq<usize> {
        self.announcement.position@
    }

    fn position(&self) -> (result: &ExplicitPosition) {
        &self.announcement.position
    }
}

/// The announcements of the goals.
pub open spec fn goal_announcements(gs: Seq<GoalModel>) -> Seq<AnnouncementModel> {
    Seq::new(gs.len(), |i: int| gs[i].announcement)
}

/// The models of a sequence of announcements.
pub open spec fn announcements_view(s: Seq<MatchAnnouncement>) -> Seq<AnnouncementModel> {
    s.map_values(|a: MatchAnnouncement| a@)
}

/// The fresh goal for a rule at a position: its left hand side must match
/// there.
pub open spec fn fresh_goal(rule: RuleModel, pos: Seq<usize>) -> GoalModel {
    GoalModel {
        obligations: seq![ObligationModel { pattern: rule.lhs, position: pos }],
        announcement: AnnouncementModel { rule, position: pos, symbols_seen: 0 },
    }
}

/// The fresh goals for all rules at a position.
pub open spec fn fresh_goals(rules: Seq<RuleModel>, pos: Seq<usize>) -> Seq<GoalModel> {
    Seq::new(rules.len(), |r: int| fresh_goal(rules[r], pos))
}

/// One of the positions is comparable with `pos`.
pub open spec fn related(positions: Seq<Seq<usize>>, pos: Seq<usize>) -> bool {
    exists|j: int| 0 <= j < positions.len() && comparable(#[trigger] positions[j], pos)
}

/// Partition `i` is the first one with a position comparable with `pos`.
pub open spec fn first_related(parts: Seq<(Seq<GoalModel>, Seq<Seq<usize>>)>, pos: Seq<usize>, i: int) -> bool {
    &&& 0 <= i < parts.len()
    &&& related(parts[i].1, pos)
    &&& forall|i2: int| 0 <= i2 < i ==> !related((#[trigger] parts[i2]).1, pos)
}

/// No partition has a position comparable with `pos`.
pub open spec fn unrelated(parts: Seq<(Seq<GoalModel>, Seq<Seq<usize>>)>, pos: Seq<usize>) -> bool {
    forall|i: int| 0 <= i < parts.len() ==> !related((#[trigger] parts[i]).1, pos)
}

/// The position below the first `n` indices.
pub open spec fn relative_position(pos: Seq<usize>, n: nat) -> Seq<usize> {
    pos.skip(n as int)
}

/// The `c`-th fresh position below the label, `label.(c + 1)`: the
/// arguments of the function symbol that was read.
pub open spec fn fresh_position(label: Seq<usize>, c: nat) -> Seq<usize> {
    label.push((c + 1) as usize)
}

/// The fresh goals that join partition `i`, for the first `c` fresh
/// positions that are related to it (first to it), relative to its greatest
/// common prefix.
pub open spec fn fresh_for(
    parts: Seq<(Seq<GoalModel>, Seq<Seq<usize>>)>,
    gcps: Seq<Seq<usize>>,
    label: Seq<usize>,
    rules: Seq<RuleModel>,
    i: int,
    c: nat,
) -> Seq<GoalModel>
    decreases c,
{
    if c == 0 {
        Seq::empty()
    } else {
        let rest = fresh_for(parts, gcps, label, rules, i, (c - 1) as nat);
        let pos = fresh_position(label, c);
        if first_related(parts, pos, i) {
            rest + fresh_goals(rules, relative_position(pos, gcps[i].len()))
        } else {
            rest
        }
    }
}

/// The transitions to the initial state, for the first `c` fresh positions
/// that no partition is related to.
pub open spec fn initial_destinations(parts: Seq<(Seq<GoalModel>, Seq<Seq<usize>>)>, label: Seq<usize>, c: nat) -> Seq<
    (Seq<usize>, DestinationModel),
>
    decreases c,
{
    if c == 0 {
        Seq::empty()
    } else {
        let rest = initial_destinations(parts, label, (c - 1) as nat);
        let pos = fresh_position(label, c);
        if unrelated(parts, pos) {
            rest.push((pos, DestinationModel::InitialState))
        } else {
            rest
        }
    }
}

/// The goals with the first `n` indices of all their positions removed.
pub open spec fn goals_without_prefix(gs: Seq<GoalModel>, n: nat) -> Seq<GoalModel> {
    Seq::new(gs.len(), |k: int| goal_without_prefix(gs[k], n))
}

/// The destinations of a hypertransition: one per partition, at its greatest
/// common prefix, with its goals relative to that prefix and the fresh goals
/// that join it; then the initial state for every unrelated fresh position.
pub open spec fn transition_destinations(
    parts: Seq<(Seq<GoalModel>, Seq<Seq<usize>>)>,
    gcps: Seq<Seq<usize>>,
    label: Seq<usize>,
    rules: Seq<RuleModel>,
    arity: nat,
) -> Seq<(Seq<usize>, DestinationModel)> {
    Seq::new(
        parts.len(),
        |i: int|
            (
                gcps[i],
                DestinationModel::Goals(
                    goals_without_prefix(parts[i].0, gcps[i].len()) + fresh_for(parts, gcps, label, rules, i, arity),
                ),
            ),
    ) + initial_destinations(parts, label, arity)
}

/// The destinations of the transition from goals `new_goals` read at
/// `label`: in an automaton that announces matches at the root only (apma)
/// all goals stay together, otherwise the goals are partitioned.
pub open spec fn destinations_of(
    new_goals: Seq<GoalModel>,
    label: Seq<usize>,
    rules: Seq<RuleModel>,
    arity: nat,
    apma: bool,
    destinations: Seq<(Seq<usize>, DestinationModel)>,
) -> bool {
    if apma {
        destinations == (if new_goals.len() > 0 {
            seq![(Seq::<usize>::empty(), DestinationModel::Goals(new_goals))]
        } else {
            Seq::empty()
        })
    } else {
        exists|parts: Seq<(Seq<GoalModel>, Seq<Seq<usize>>)>, gcps: Seq<Seq<usize>>|
            #![trigger is_partition(new_goals, parts), transition_destinations(parts, gcps, label, rules, arity)]
            is_partition(new_goals, parts) && gcps.len() == parts.len() && (forall|i: int|
                0 <= i < parts.len() ==> greatest_common_prefix_of(
                    (#[trigger] parts[i]).0,
                    gcps[i],
                )) && destinations.to_multiset() == transition_destinations(
                parts,
                gcps,
                label,
                rules,
                arity,
            ).to_multiset()
    }
}

/// The fresh goals for all rules at a position.
fn fresh_goals_exec(rules: &Vec<Rule>, pos: &ExplicitPosition) -> (result: Vec<MatchGoal>)
    ensures
        goals_view(result@) == fresh_goals(rules_view(rules@), pos@),
{
    let ghost rs = rules_view(rules@);
    let mut result: Vec<MatchGoal> = Vec::new();
    let mut r: usize = 0;
    while r < rules.len()
        invariant
            r <= rules@.len(),
            rs == rules_view(rules@),
            result@.len() == r,
            forall|k: int| 0 <= k < r ==> (#[trigger] goals_view(result@)[k]) == fresh_goal(rs[k], pos@),
        decreases rules@.len() - r,
    {
        let rr = &rules[r];
        assert(rs[r as int] == rr@);
        let mut obligations: Vec<MatchObligation> = Vec::new();
        obligations.push(MatchObligation { pattern: rr.lhs.copy(), position: pos.clone() });
        let goal = MatchGoal {
            obligations,
            announcement: MatchAnnouncement { rule: rr.copy(), position: pos.clone(), symbols_seen: 0 },
        };
        assert(goal@.obligations =~= seq![ObligationModel { pattern: rr@.lhs, position: pos@ }]);
        let ghost before = goals_view(result@);
        result.push(goal);
        assert(goals_view(result@) =~= before.push(fresh_goal(rs[r as int], pos@)));
        r = r + 1;
    }
    assert(goals_view(result@) =~= fresh_goals(rs, pos@));
    result
}

/// Whether one of the positions is comparable with `pos`.
fn related_exec(positions: &Vec<ExplicitPosition>, pos: &ExplicitPosition) -> (result: bool)
    ensures
        result == related(positions_view(positions@), pos@),
{
    let mut j: usize = 0;
    while j < positions.len()
        invariant
            j <= positions@.len(),
            forall|a: int| 0 <= a < j ==> !comparable(#[trigger] positions_view(positions@)[a], pos@),
        decreases positions@.len() - j,
    {
        assert(positions_view(positions@)[j as int] == positions@[j as int]@);
        if MatchGoal::pos_comparable(&positions[j], pos) {
            return true;
        }
        j = j + 1;
    }
    false
}

/// The first partition (given by its positions) with a position comparable
/// with `pos`, if any.
fn find_related(positions_per_partition: &Vec<Vec<ExplicitPosition>>, pos: &ExplicitPosition) -> (result: Option<usize>)
    ensures
        match result {
            Some(i) => i < positions_per_partition@.len() && related(
                positions_view(positions_per_partition@[i as int]@),
                pos@,
            ) && forall|i2: int|
                0 <= i2 < i ==> !related(positions_view((#[trigger] positions_per_partition@[i2])@), pos@),
            None => forall|i2: int|
                0 <= i2 < positions_per_partition@.len() ==> !related(
                    positions_view((#[trigger] positions_per_partition@[i2])@),
                    pos@,
                ),
        },
{
    let mut i: usize = 0;
    while i < positions_per_partition.len()
        invariant
            i <= positions_per_partition@.len(),
            forall|i2: int|
                0 <= i2 < i ==> !related(positions_view((#[trigger] positions_per_partition@[i2])@), pos@),
        decreases positions_per_partition@.len() - i,
    {
        if related_exec(&positions_per_partition[i], pos) {
            return Some(i);
        }
        i = i + 1;
    }
    None
}

/// A greatest common prefix of goals is no longer than any of their positions.
proof fn lemma_gcp_fits(gs: Seq<GoalModel>, p: Seq<usize>)
    requires
        greatest_common_prefix_of(gs, p),
    ensures
        positions_longer_than(gs, p.len()),
{
    assert forall|k: int, j: int|
        0 <= k < gs.len() && 0 <= j < goal_positions(gs[k]).len() implies p.len() <= (#[trigger] goal_positions(
        gs[k],
    )[j]).len() by {
        assert(is_prefix(p, goal_positions(gs[k])[j]));
    }
}

impl State {
    /// Derive transitions from a state given a head symbol. The resulting transition is returned as a tuple
    /// The tuple consists of a vector of outputs and a set of destinations (which are sets of match goals).
    /// We don't use the struct Transition as it requires that the destination is a full state, with name.
    /// Since we don't yet know whether the state already exists we just return a set of match goals as 'state'.
    ///
    /// Parameter symbol is the symbol for which the transition is computed.
    /// No goal of the state may be announced strictly below its label (true
    /// of every state of a set automaton, see [goals_layered]): then every
    /// fresh position that joins a partition lies below the greatest common
    /// prefix of that partition.
    #[verifier::spinoff_prover]
    #[verifier::rlimit(50)]
    pub(crate) fn derive_transition(&self, symbol: usize, arity: usize, rewrite_rules: &Vec<Rule>, apma: bool) -> (result: (
        Vec<MatchAnnouncement>,
        Vec<(ExplicitPosition, GoalsOrInitial)>,
    ))
        requires
            symbol != 0 ==> derivative_defined(goals_view(self.match_goals@), self.label@, symbol, arity),
            no_goal_below(goals_view(self.match_goals@), self.label@),
            arity < usize::MAX - 1,
        ensures
            sorted_by_position(result.1@),
            symbol == 0 ==> result.0@.len() == 0 && result.1@.len() == 0,
            symbol != 0 ==> announcements_view(result.0@) == goal_announcements(
                derivative_of(goals_view(self.match_goals@), self.label@, symbol).0,
            ),
            symbol != 0 ==> exists|reduced: Seq<GoalModel>|
                obligations_sorted_from(derivative_of(goals_view(self.match_goals@), self.label@, symbol).2, reduced)
                    && destinations_of(
                    derivative_of(goals_view(self.match_goals@), self.label@, symbol).1 + reduced,
                    self.label@,
                    rules_view(rewrite_rules@),
                    arity as nat,
                    apma,
                    models(result.1@),
                ),
    {
        if symbol == 0 {
            // For the default symbols nothing will be created
            return (Vec::new(), Vec::new());
        }
        let ghost gs = goals_view(self.match_goals@);
        let ghost label = self.label@;
        let ghost rules = rules_view(rewrite_rules@);
        let ghost d = derivative_of(gs, label, symbol);

        // Computes the derivative containing the goals that are completed, unchanged and reduced
        let derivative = self.compute_derivative(symbol, arity);
        let Derivative { completed, unchanged, reduced } = derivative;

        // The outputs/matching patterns of the transitions are those who are completed
        let mut completed = completed;
        let mut outputs: Vec<MatchAnnouncement> = Vec::new();
        let ghost mut k: int = 0;
        assert(announcements_view(outputs@) =~= goal_announcements(d.0.take(0)));
        while completed.len() > 0
            invariant
                0 <= k <= d.0.len(),
                goals_view(completed@) == d.0.skip(k),
                announcements_view(outputs@) == goal_announcements(d.0.take(k)),
            decreases completed@.len(),
        {
            let ghost old_completed = completed@;
            assert(goals_view(old_completed).len() == old_completed.len());
            assert(d.0.skip(k)[0] == d.0[k]);
            let goal = completed.remove(0);
            assert(goals_view(old_completed)[0] == goal@);
            let ghost before = announcements_view(outputs@);
            let ghost ga = goal@.announcement;
            outputs.push(goal.announcement);
            proof {
                assert(announcements_view(outputs@) =~= before.push(ga));
                assert(d.0.take(k + 1) =~= d.0.take(k).push(d.0[k]));
                assert(goal_announcements(d.0.take(k + 1)) =~= goal_announcements(d.0.take(k)).push(ga));
                assert(announcements_view(outputs@) =~= goal_announcements(d.0.take(k + 1)));
                assert forall|i: int| 0 <= i < completed@.len() implies goals_view(completed@)[i] == d.0.skip(
                    k + 1,
                )[i] by {
                    assert(completed@[i] == old_completed[i + 1]);
                    assert(goals_view(old_completed)[i + 1] == d.0.skip(k)[i + 1]);
                }
                assert(goals_view(completed@) =~= d.0.skip(k + 1));
                k = k + 1;
            }
        }
        assert(d.0.take(k) =~= d.0);

        // The new match goals are the unchanged and reduced match goals.
        let ghost reduced_view = goals_view(reduced@);
        let mut new_match_goals = unchanged;
        let mut reduced = reduced;
        new_match_goals.append(&mut reduced);
        let ghost new_goals = d.1 + reduced_view;
        assert(goals_view(new_match_goals@) =~= new_goals);
        proof {
            lemma_new_goals_not_below(gs, label, symbol, reduced_view);
        }

        let mut destinations: Vec<(ExplicitPosition, GoalsOrInitial)> = Vec::new();
        // If we are building an APMA we do not deepen the position or create a hypertransitions
        // with multiple endpoints
        if apma {
            if new_match_goals.len() > 0 {
                destinations.push((ExplicitPosition::empty_pos(), GoalsOrInitial::Goals(new_match_goals)));
                assert(models(destinations@) =~= seq![
                    (Seq::<usize>::empty(), DestinationModel::Goals(new_goals)),
                ]);
            } else {
                assert(models(destinations@) =~= Seq::<(Seq<usize>, DestinationModel)>::empty());
            }
            let sorted = sort_by_position(destinations);
            proof {
                assert(models(sorted@).len() == models(destinations@).len()) by {
                    vstd::seq_lib::to_multiset_len(models(sorted@));
                    vstd::seq_lib::to_multiset_len(models(destinations@));
                }
                if models(destinations@).len() == 1 {
                    let x = models(destinations@)[0];
                    vstd::seq_lib::to_multiset_contains(models(sorted@), models(sorted@)[0]);
                    vstd::seq_lib::to_multiset_contains(models(destinations@), models(sorted@)[0]);
                    assert(models(destinations@).contains(models(sorted@)[0]));
                    assert(models(sorted@) =~= models(destinations@));
                } else {
                    assert(models(sorted@) =~= models(destinations@));
                }
                assert(destinations_of(new_goals, label, rules, arity as nat, apma, models(sorted@)));
            }
            return (outputs, sorted);
        }
        // In case we are building a set automaton we partition the match goals
        let partitioned = MatchGoal::partition(new_match_goals);
        let ghost parts = partitions_view(partitioned@);
        let n = partitioned.len();

        // Get the greatest common prefix and shorten the positions
        let mut partitioned = partitioned;
        let mut positions_per_partition: Vec<Vec<ExplicitPosition>> = Vec::new();
        let mut gcps: Vec<ExplicitPosition> = Vec::new();
        let mut dest_goals: Vec<Vec<MatchGoal>> = Vec::new();
        let mut i: usize = 0;
        while partitioned.len() > 0
            invariant
                i <= n,
                n == parts.len(),
                partitions_view(partitioned@) == parts.skip(i as int),
                positions_per_partition@.len() == i,
                gcps@.len() == i,
                dest_goals@.len() == i,
                forall|a: int| 0 <= a < i ==> positions_view((#[trigger] positions_per_partition@[a])@) == parts[a].1,
                forall|a: int| 0 <= a < i ==> greatest_common_prefix_of(parts[a].0, (#[trigger] gcps@[a])@),
                forall|a: int|
                    0 <= a < i ==> goals_view((#[trigger] dest_goals@[a])@) == goals_without_prefix(
                        parts[a].0,
                        gcps@[a]@.len(),
                    ),
            decreases partitioned@.len(),
        {
            let ghost old_partitioned = partitioned@;
            assert(partitions_view(old_partitioned).len() == old_partitioned.len());
            assert(parts.skip(i as int)[0] == parts[i as int]);
            let (p, pos) = partitioned.remove(0);
            assert(partitions_view(old_partitioned)[0] == (goals_view(p@), positions_view(pos@)));
            let gcp = MatchGoal::greatest_common_prefix(&p);
            let gcp_length = gcp.len();
            proof {
                lemma_gcp_fits(goals_view(p@), gcp@);
            }
            let goals = MatchGoal::remove_prefix(p, gcp_length);
            assert(goals_view(goals@) =~= goals_without_prefix(parts[i as int].0, gcp@.len()));
            let ghost old_ppp = positions_per_partition@;
            let ghost old_gcps = gcps@;
            let ghost old_dest = dest_goals@;
            positions_per_partition.push(pos);
            gcps.push(gcp);
            dest_goals.push(goals);
            proof {
                assert forall|a: int| 0 <= a < i + 1 implies positions_view((#[trigger] positions_per_partition@[a])@)
                    == parts[a].1 by {
                    if a < i {
                        assert(positions_per_partition@[a] == old_ppp[a]);
                    }
                }
                assert forall|a: int| 0 <= a < i + 1 implies greatest_common_prefix_of(
                    parts[a].0,
                    (#[trigger] gcps@[a])@,
                ) by {
                    if a < i {
                        assert(gcps@[a] == old_gcps[a]);
                    }
                }
                assert forall|a: int| 0 <= a < i + 1 implies goals_view((#[trigger] dest_goals@[a])@)
                    == goals_without_prefix(parts[a].0, gcps@[a]@.len()) by {
                    assert(gcps@[a] == (if a < i { old_gcps[a] } else { gcps@[i as int] }));
                    if a < i {
                        assert(dest_goals@[a] == old_dest[a]);
                    }
                }
                assert forall|a: int| 0 <= a < partitioned@.len() implies partitions_view(partitioned@)[a]
                    == parts.skip(i + 1)[a] by {
                    assert(partitioned@[a] == old_partitioned[a + 1]);
                    assert(partitions_view(old_partitioned)[a + 1] == parts.skip(i as int)[a + 1]);
                }
                assert(partitions_view(partitioned@) =~= parts.skip(i + 1));
            }
            i = i + 1;
        }
        assert(i == n) by {
            assert(parts.skip(i as int).len() == 0);
        }
        let ghost gcp_view = Seq::new(n as nat, |a: int| gcps@[a]@);

        // Handle fresh match goals, they are the positions Label(state).i
        // where i is between 2 and the arity + 2 of the function symbol of
        // the transition. Position 1 is the function symbol.
        let mut initial: Vec<(ExplicitPosition, GoalsOrInitial)> = Vec::new();
        let mut c: usize = 1;
        assert forall|a: int| 0 <= a < n implies greatest_common_prefix_of((#[trigger] parts[a]).0, gcp_view[a]) by {
            assert(positions_view(positions_per_partition@[a]@) == parts[a].1);
            assert(gcp_view[a] == gcps@[a]@);
        }
        assert(models(initial@) =~= initial_destinations(parts, label, 0));
        assert forall|a: int| 0 <= a < n implies goals_view((#[trigger] dest_goals@[a])@) == goals_without_prefix(
            parts[a].0,
            gcp_view[a].len(),
        ) + fresh_for(parts, gcp_view, label, rules, a, 0) by {
            assert(positions_view(positions_per_partition@[a]@) == parts[a].1);
            assert(gcp_view[a] == gcps@[a]@);
            assert(fresh_for(parts, gcp_view, label, rules, a, 0) == Seq::<GoalModel>::empty());
            assert(goals_without_prefix(parts[a].0, gcp_view[a].len()) + fresh_for(parts, gcp_view, label, rules, a, 0)
                =~= goals_without_prefix(parts[a].0, gcp_view[a].len()));
        }
        while c <= arity
            invariant
                1 <= c <= arity + 1,
                arity < usize::MAX - 1,
                n == parts.len(),
                is_partition(new_goals, parts),
                no_goal_below(new_goals, label),
                label == self.label@,
                rules == rules_view(rewrite_rules@),
                positions_per_partition@.len() == n,
                gcps@.len() == n,
                dest_goals@.len() == n,
                gcp_view == Seq::new(n as nat, |a: int| gcps@[a]@),
                forall|a: int| 0 <= a < n ==> greatest_common_prefix_of((#[trigger] parts[a]).0, gcp_view[a]),
                forall|a: int| 0 <= a < n ==> positions_view((#[trigger] positions_per_partition@[a])@) == parts[a].1,
                forall|a: int|
                    0 <= a < n ==> goals_view((#[trigger] dest_goals@[a])@) == goals_without_prefix(
                        parts[a].0,
                        gcp_view[a].len(),
                    ) + fresh_for(parts, gcp_view, label, rules, a, (c - 1) as nat),
                models(initial@) == initial_destinations(parts, label, (c - 1) as nat),
            decreases arity + 1 - c,
        {
            let mut pos = self.label.clone();
            pos.push(c + 1);
            assert(pos@ == fresh_position(label, c as nat));
            // Check if the fresh goals are related to one of the existing partitions
            let key = find_related(&positions_per_partition, &pos);
            let ghost before_initial = models(initial@);
            let ghost before_dest = dest_goals@;
            match key {
                Some(key) => {
                    proof {
                        assert forall|i2: int| 0 <= i2 < key implies !related((#[trigger] parts[i2]).1, pos@) by {
                            assert(positions_view(positions_per_partition@[i2]@) == parts[i2].1);
                        }
                        assert(positions_view(positions_per_partition@[key as int]@) == parts[key as int].1);
                        assert(first_related(parts, pos@, key as int));
                        assert(!unrelated(parts, pos@));
                    }
                    // If the fresh goals fall in an existing partition
                    let gcp_length = gcps[key].len();
                    assert(gcp_length == gcp_view[key as int].len());
                    proof {
                        assert(pos@.subrange(0, label.len() as int) =~= label);
                        lemma_gcp_above_fresh(new_goals, parts, gcp_view[key as int], label, pos@, key as int);
                    }
                    let relative = pos.skip(gcp_length);
                    assert(relative@ == relative_position(pos@, gcp_length as nat));
                    // Add the fresh goals to the partition
                    let mut fresh = fresh_goals_exec(rewrite_rules, &relative);
                    let mut goals = dest_goals.remove(key);
                    let ghost old_goals = goals_view(goals@);
                    goals.append(&mut fresh);
                    dest_goals.insert(key, goals);
                    proof {
                        assert forall|a: int| 0 <= a < n implies goals_view((#[trigger] dest_goals@[a])@)
                            == goals_without_prefix(parts[a].0, gcp_view[a].len()) + fresh_for(
                            parts,
                            gcp_view,
                            label,
                            rules,
                            a,
                            c as nat,
                        ) by {
                            if a == key {
                                assert(goals_view(dest_goals@[a]@) =~= old_goals + fresh_goals(
                                    rules,
                                    relative_position(pos@, gcp_view[a].len()),
                                ));
                            } else {
                                assert(dest_goals@[a] == before_dest[a]);
                                assert(!first_related(parts, pos@, a));
                            }
                        }
                        assert(initial_destinations(parts, label, c as nat) == before_initial);
                    }
                },
                None => {
                    proof {
                        assert forall|i2: int| 0 <= i2 < n implies !related((#[trigger] parts[i2]).1, pos@) by {
                            assert(positions_view(positions_per_partition@[i2]@) == parts[i2].1);
                        }
                        assert(unrelated(parts, pos@));
                        assert forall|a: int| 0 <= a < n implies !first_related(parts, pos@, a) by {
                            assert(!related(parts[a].1, pos@));
                        }
                    }
                    // The transition is simply to the initial state
                    initial.push((pos, GoalsOrInitial::InitialState));
                    proof {
                        assert(models(initial@) =~= before_initial.push((pos@, DestinationModel::InitialState)));
                        assert forall|a: int| 0 <= a < n implies goals_view((#[trigger] dest_goals@[a])@)
                            == goals_without_prefix(parts[a].0, gcp_view[a].len()) + fresh_for(
                            parts,
                            gcp_view,
                            label,
                            rules,
                            a,
                            c as nat,
                        ) by {
                            assert(!first_related(parts, pos@, a));
                        }
                    }
                },
            }
            c = c + 1;
        }

        assert(c == arity + 1);
        let ghost initial_model = models(initial@);
        assert(initial_model == initial_destinations(parts, label, arity as nat));
        // Collect the destinations of the partitions, then the ones to the initial state.
        let ghost expected = transition_destinations(parts, gcp_view, label, rules, arity as nat);
        let mut gcps = gcps;
        let mut dest_goals = dest_goals;
        let mut i: usize = 0;
        while gcps.len() > 0
            invariant
                i <= n,
                n == parts.len(),
                gcps@.len() == n - i,
                dest_goals@.len() == n - i,
                destinations@.len() == i,
                forall|a: int| 0 <= a < n - i ==> (#[trigger] gcps@[a])@ == gcp_view[a + i],
                forall|a: int|
                    0 <= a < n - i ==> goals_view((#[trigger] dest_goals@[a])@) == goals_without_prefix(
                        parts[a + i].0,
                        gcp_view[a + i].len(),
                    ) + fresh_for(parts, gcp_view, label, rules, a + i, arity as nat),
                forall|a: int| 0 <= a < i ==> (#[trigger] models(destinations@)[a]) == expected[a],
                expected == transition_destinations(parts, gcp_view, label, rules, arity as nat),
                gcp_view.len() == n,
            decreases gcps@.len(),
        {
            let ghost old_gcps = gcps@;
            let ghost old_dest_goals = dest_goals@;
            let gcp = gcps.remove(0);
            let goals = dest_goals.remove(0);
            let ghost before = models(destinations@);
            destinations.push((gcp, GoalsOrInitial::Goals(goals)));
            proof {
                assert(models(destinations@) =~= before.push(expected[i as int]));
                assert forall|a: int| 0 <= a < n - i - 1 implies (#[trigger] gcps@[a])@ == gcp_view[a + i + 1] by {
                    assert(gcps@[a] == old_gcps[a + 1]);
                }
                assert forall|a: int| 0 <= a < n - i - 1 implies goals_view((#[trigger] dest_goals@[a])@)
                    == goals_without_prefix(parts[a + i + 1].0, gcp_view[a + i + 1].len()) + fresh_for(
                    parts,
                    gcp_view,
                    label,
                    rules,
                    a + i + 1,
                    arity as nat,
                ) by {
                    assert(dest_goals@[a] == old_dest_goals[a + 1]);
                }
            }
            i = i + 1;
        }
        let ghost before = models(destinations@);
        assert(i == n);
        let ghost initial_exec = initial@;
        destinations.append(&mut initial);
        proof {
            assert(models(destinations@) =~= before + models(initial_exec));
            assert(expected =~= Seq::new(
                n as nat,
                |a: int|
                    (
                        gcp_view[a],
                        DestinationModel::Goals(
                            goals_without_prefix(parts[a].0, gcp_view[a].len()) + fresh_for(
                                parts,
                                gcp_view,
                                label,
                                rules,
                                a,
                                arity as nat,
                            ),
                        ),
                    ),
            ) + initial_model);
            assert(before =~= expected.take(n as int));
            assert(models(destinations@) =~= expected);
            assert forall|a: int| 0 <= a < parts.len() implies greatest_common_prefix_of(
                (#[trigger] parts[a]).0,
                gcp_view[a],
            ) by {
            }
        }
        // Sort the destination such that transitions which do not deepen the position are listed first
        let sorted = sort_by_position(destinations);
        assert(destinations_of(new_goals, label, rules, arity as nat, apma, models(sorted@)));
        (outputs, sorted)
    }
}

/// Some term of `ts` has the function symbol `f` with `n` arguments.
pub open spec fn occurs_in(ts: Seq<Term>, f: usize, n: nat) -> bool {
    exists|i: int| 0 <= i < ts.len() && symbol_occurs(#[trigger] ts[i], f, n)
}

/// Some term of `ts` has the function symbol `f`.
pub open spec fn occurs_somewhere(ts: Seq<Term>, f: usize) -> bool {
    exists|n: nat| occurs_in(ts, f, n)
}

/// No function symbol occurs in `ts` with two different numbers of
/// arguments.
pub open spec fn arities_consistent(ts: Seq<Term>) -> bool {
    forall|f: usize, n1: nat, n2: nat| occurs_in(ts, f, n1) && occurs_in(ts, f, n2) ==> n1 == n2
}

/// The table is `old` extended with the symbols that `occ` holds of: each
/// such symbol is at its operation id with its arity, other entries keep
/// their value (or are the default entry where the table grew), and the table
/// only grew as far as such a symbol needed.
pub open spec fn table_update_by(
    old: Seq<(usize, usize)>,
    new: Seq<(usize, usize)>,
    occ: spec_fn(usize, nat) -> bool,
) -> bool {
    &&& new.len() >= old.len()
    &&& forall|f: usize, n: nat| #[trigger] occ(f, n) ==> f < new.len() && new[f as int] == (f, n as usize)
    &&& forall|f: int|
        0 <= f < new.len() && !(exists|n: nat| #[trigger] occ(f as usize, n)) ==> #[trigger] new[f] == (if f
            < old.len() {
            old[f]
        } else {
            (0usize, 0usize)
        })
    &&& new.len() > old.len() ==> exists|n: nat| #[trigger] occ((new.len() - 1) as usize, n)
}

/// The symbols of the terms.
pub open spec fn occurrences(ts: Seq<Term>) -> spec_fn(usize, nat) -> bool {
    |f: usize, n: nat| occurs_in(ts, f, n)
}

/// The table is `old` extended with the symbols of `ts`.
pub open spec fn table_update(old: Seq<(usize, usize)>, new: Seq<(usize, usize)>, ts: Seq<Term>) -> bool {
    table_update_by(old, new, occurrences(ts))
}

/// The symbol table of the terms: the entry at each operation id is that
/// symbol with its arity, or the default entry where no symbol has that id;
/// the table ends with the largest id that occurs.
pub open spec fn symbol_table_of(ts: Seq<Term>, table: Seq<(usize, usize)>) -> bool {
    table_update(Seq::empty(), table, ts)
}

/// The symbols of `ts` agree with the entries of the table.
pub open spec fn agrees_with(table: Seq<(usize, usize)>, ts: Seq<Term>) -> bool {
    forall|f: usize, n: nat|
        #[trigger] occurs_in(ts, f, n) && f < table.len() && table[f as int] != (0usize, 0usize) ==> table[f as int]
            == (f, n as usize)
}

/// Adds the given function symbol to the indexed symbols. Errors when a
/// function symbol is overloaded with different arities.
fn add_symbol(function_symbol: usize, arity: usize, symbols: &mut Vec<(usize, usize)>)
    requires
        function_symbol != DATA_APPLICATION,
        function_symbol < old(symbols)@.len() && old(symbols)@[function_symbol as int] != (0usize, 0usize)
            ==> old(symbols)@[function_symbol as int] == (function_symbol, arity),
    ensures
        final(symbols)@.len() == if function_symbol < old(symbols)@.len() {
            old(symbols)@.len()
        } else {
            (function_symbol + 1) as nat
        },
        final(symbols)@[function_symbol as int] == (function_symbol, arity),
        forall|f: int|
            0 <= f < final(symbols)@.len() && f != function_symbol ==> #[trigger] final(symbols)@[f] == (if f
                < old(symbols)@.len() {
                old(symbols)@[f]
            } else {
                (0usize, 0usize)
            }),
{
    let index = function_symbol;
    let ghost old_symbols = symbols@;
    while symbols.len() <= index
        invariant
            symbols@.len() >= old_symbols.len(),
            symbols@.subrange(0, old_symbols.len() as int) == old_symbols,
            forall|f: int| old_symbols.len() <= f < symbols@.len() ==> #[trigger] symbols@[f] == (0usize, 0usize),
            symbols@.len() > old_symbols.len() ==> symbols@.len() <= index + 1,
        decreases index + 1 - symbols@.len(),
    {
        let ghost before = symbols@;
        symbols.push((0, 0));
        assert(symbols@.subrange(0, old_symbols.len() as int) =~= before.subrange(0, old_symbols.len() as int));
    }
    let entry = symbols[index];
    if entry.0 == 0 && entry.1 == 0 {
        symbols.set(index, (function_symbol, arity));
    }
    proof {
        assert forall|f: int| 0 <= f < symbols@.len() && f != function_symbol implies #[trigger] symbols@[f] == (if f
            < old_symbols.len() {
            old_symbols[f]
        } else {
            (0usize, 0usize)
        }) by {
            if f < old_symbols.len() {
                assert(symbols@.subrange(0, old_symbols.len() as int)[f] == symbols@[f]);
            }
        }
    }
}

/// The symbols of an application `t` found in its head and its first `i`
/// arguments (counting the head).
pub open spec fn application_occurrences(t: Term, i: int) -> spec_fn(usize, nat) -> bool {
    |f: usize, n: nat|
        (t.args[0].symbol == f && n == t.args.len() - 1) || exists|j: int|
            1 <= j < i && symbol_occurs(#[trigger] t.args[j], f, n)
}

/// Finds all data symbols in the term and adds them to the symbol index.
fn find_symbols(t: &ATerm, symbols: &mut Vec<(usize, usize)>)
    requires
        is_supported(t@),
        agrees_with(old(symbols)@, seq![t@]),
        arities_consistent(seq![t@]),
    ensures
        table_update(old(symbols)@, final(symbols)@, seq![t@]),
    decreases t,
{
    let ghost old_symbols = symbols@;
    let ghost ts = seq![t@];
    if is_data_function_symbol_exec(t) {
        proof {
            assert(symbol_occurs(t@, t@.symbol, 0));
            assert(ts[0] == t@);
            assert(occurs_in(ts, t@.symbol, 0));
        }
        add_symbol(t.get_head_symbol(), 0, symbols);
        proof {
            assert forall|f: usize, n: nat| #[trigger] occurrences(ts)(f, n) implies f < symbols@.len() && symbols@[f as int]
                == (f, n as usize) by {
                let i = choose|i: int| 0 <= i < ts.len() && symbol_occurs(#[trigger] ts[i], f, n);
                assert(ts[i] == t@);
            }
            assert forall|f: int|
                0 <= f < symbols@.len() && !(exists|n: nat| #[trigger] occurrences(ts)(f as usize, n)) implies #[trigger] symbols@[f]
                == (if f < old_symbols.len() {
                old_symbols[f]
            } else {
                (0usize, 0usize)
            }) by {
                if f == t@.symbol {
                    assert(occurrences(ts)(f as usize, 0));
                }
            }
            if symbols@.len() > old_symbols.len() {
                assert(occurrences(ts)((symbols@.len() - 1) as usize, 0));
            }
        }
    } else if is_data_application_exec(t) {
        let n = t.arity();
        let head = t.arg(0);
        proof {
            assert(symbol_occurs(t@, head@.symbol, (n - 1) as nat));
            assert(ts[0] == t@);
            assert(occurs_in(ts, head@.symbol, (n - 1) as nat));
        }
        add_symbol(head.get_head_symbol(), n - 1, symbols);
        let mut i: usize = 1;
        proof {
            let occ = application_occurrences(t@, 1);
            assert forall|f: usize, nn: nat| #[trigger] occ(f, nn) implies f < symbols@.len() && symbols@[f as int]
                == (f, nn as usize) by {
            }
            assert forall|f: int|
                0 <= f < symbols@.len() && !(exists|nn: nat| #[trigger] occ(f as usize, nn)) implies #[trigger] symbols@[f]
                == (if f < old_symbols.len() {
                old_symbols[f]
            } else {
                (0usize, 0usize)
            }) by {
                if f == head@.symbol {
                    assert(occ(f as usize, (n - 1) as nat));
                }
            }
            if symbols@.len() > old_symbols.len() {
                assert(occ((symbols@.len() - 1) as usize, (n - 1) as nat));
            }
        }
        while i < n
            invariant
                1 <= i <= n,
                n == t@.args.len(),
                is_supported(t@),
                is_data_application(t@),
                ts == seq![t@],
                agrees_with(old_symbols, ts),
                arities_consistent(ts),
                table_update_by(old_symbols, symbols@, application_occurrences(t@, i as int)),
            decreases n - i,
        {
            let ghost cur = symbols@;
            let arg = t.arg(i);
            let ghost a = arg@;
            assert(t@.args[i as int] == a);
            assert(is_supported(a));
            proof {
                // The symbols of the argument are symbols of the term.
                assert forall|f: usize, nn: nat| symbol_occurs(a, f, nn) implies occurs_in(ts, f, nn) by {
                    assert(symbol_occurs(t@, f, nn));
                    assert(ts[0] == t@);
                }
                assert forall|f: usize, nn: nat| #[trigger] occurs_in(seq![a], f, nn) && f < cur.len() && cur[f as int]
                    != (0usize, 0usize) implies cur[f as int] == (f, nn as usize) by {
                    assert(seq![a][0] == a);
                    assert(symbol_occurs(a, f, nn));
                    assert(occurs_in(ts, f, nn));
                    let occ = application_occurrences(t@, i as int);
                    if exists|m: nat| #[trigger] occ(f, m) {
                        let m = choose|m: nat| #[trigger] occ(f, m);
                        assert(cur[f as int] == (f, m as usize));
                        assert(symbol_occurs(t@, f, m));
                        assert(occurs_in(ts, f, m));
                    } else if f < old_symbols.len() {
                        assert(cur[f as int] == old_symbols[f as int]);
                    }
                }
                assert forall|f: usize, n1: nat, n2: nat|
                    occurs_in(seq![a], f, n1) && occurs_in(seq![a], f, n2) implies n1 == n2 by {
                    assert(seq![a][0] == a);
                    assert(occurs_in(ts, f, n1));
                    assert(occurs_in(ts, f, n2));
                }
            }
            assert(decreases_to!(t => t.args));
            assert(decreases_to!(t.args => t.args@[i as int]));
            find_symbols(&t.args[i], symbols);
            proof {
                let prev = application_occurrences(t@, i as int);
                let occ = application_occurrences(t@, i + 1);
                let arg_occ = occurrences(seq![a]);
                assert forall|f: usize, nn: nat| #[trigger] occ(f, nn) implies f < symbols@.len() && symbols@[f as int]
                    == (f, nn as usize) by {
                    if symbol_occurs(a, f, nn) {
                        assert(seq![a][0] == a);
                        assert(arg_occ(f, nn));
                    } else {
                        assert(prev(f, nn));
                        if exists|m: nat| #[trigger] arg_occ(f, m) {
                            let m = choose|m: nat| #[trigger] arg_occ(f, m);
                            assert(seq![a][0] == a);
                            assert(symbol_occurs(a, f, m));
                            assert(symbol_occurs(t@, f, m));
                            assert(occurs_in(ts, f, m));
                            assert(symbol_occurs(t@, f, nn));
                            assert(occurs_in(ts, f, nn));
                        }
                    }
                }
                assert forall|f: int|
                    0 <= f < symbols@.len() && !(exists|nn: nat| #[trigger] occ(f as usize, nn)) implies #[trigger] symbols@[f]
                    == (if f < old_symbols.len() {
                    old_symbols[f]
                } else {
                    (0usize, 0usize)
                }) by {
                    assert forall|nn: nat| !#[trigger] arg_occ(f as usize, nn) by {
                        if arg_occ(f as usize, nn) {
                            assert(seq![a][0] == a);
                            assert(occ(f as usize, nn));
                        }
                    }
                    assert forall|nn: nat| !#[trigger] prev(f as usize, nn) by {
                        if prev(f as usize, nn) {
                            assert(occ(f as usize, nn));
                        }
                    }
                }
                if symbols@.len() > old_symbols.len() {
                    if symbols@.len() > cur.len() {
                        let m = choose|m: nat| #[trigger] arg_occ((symbols@.len() - 1) as usize, m);
                        assert(seq![a][0] == a);
                        assert(occ((symbols@.len() - 1) as usize, m));
                    } else {
                        let m = choose|m: nat| #[trigger] prev((cur.len() - 1) as usize, m);
                        assert(occ((symbols@.len() - 1) as usize, m));
                    }
                }
            }
            i = i + 1;
        }
        proof {
            let occ = application_occurrences(t@, n as int);
            assert forall|f: usize, nn: nat| #[trigger] occ(f, nn) == occurrences(ts)(f, nn) by {
                assert(ts[0] == t@);
                if occurrences(ts)(f, nn) {
                    let k = choose|k: int| 0 <= k < ts.len() && symbol_occurs(#[trigger] ts[k], f, nn);
                    assert(k == 0);
                }
            }
            assert(occ == occurrences(ts));
        }
    } else {
        // A variable has no symbols.
        proof {
            assert(t@.variable);
            assert forall|f: usize, nn: nat| !#[trigger] occurrences(ts)(f, nn) by {
                if occurrences(ts)(f, nn) {
                    let k = choose|k: int| 0 <= k < ts.len() && symbol_occurs(#[trigger] ts[k], f, nn);
                    assert(ts[k] == t@);
                }
            }
            assert(symbols@ =~= old_symbols);
        }
    }
}

/// The goal is announced at the root.
pub open spec fn is_root_goal(g: GoalModel) -> bool {
    g.announcement.position.len() == 0
}

/// Every goal is announced at the root.
pub open spec fn all_root(gs: Seq<GoalModel>) -> bool {
    forall|k: int| 0 <= k < gs.len() ==> is_root_goal(#[trigger] gs[k])
}

/// A state can be labelled: some goal is announced at the root, and each
/// such goal has an obligation.
pub open spec fn label_defined(gs: Seq<GoalModel>) -> bool {
    &&& has_root_goal(gs)
    &&& forall|k: int| 0 <= k < gs.len() && is_root_goal(#[trigger] gs[k]) ==> gs[k].obligations.len() > 0
}

/// The first goal announced at the root has an obligation.
pub open spec fn first_root_goal_labelled(gs: Seq<GoalModel>) -> bool {
    exists|k: int|
        0 <= k < gs.len() && is_root_goal(#[trigger] gs[k]) && gs[k].obligations.len() > 0 && forall|l: int|
            0 <= l < k ==> !is_root_goal(#[trigger] gs[l])
}

/// Goals whose root goals all have an obligation have a first root goal with
/// an obligation.
pub proof fn lemma_first_root_goal_labelled(gs: Seq<GoalModel>)
    requires
        label_defined(gs),
    ensures
        first_root_goal_labelled(gs),
    decreases gs.len(),
{
    if is_root_goal(gs[0]) {
        assert(gs[0].announcement.position.len() == 0);
    } else {
        let rest = gs.drop_first();
        let k = choose|k: int| 0 <= k < gs.len() && (#[trigger] gs[k]).announcement.position.len() == 0;
        assert(rest[k - 1] == gs[k]);
        assert(has_root_goal(rest));
        assert forall|i: int| 0 <= i < rest.len() && is_root_goal(#[trigger] rest[i]) implies rest[i].obligations.len() > 0 by {
            assert(rest[i] == gs[i + 1]);
        }
        lemma_first_root_goal_labelled(rest);
        let j = choose|j: int|
            0 <= j < rest.len() && is_root_goal(#[trigger] rest[j]) && rest[j].obligations.len() > 0 && forall|l: int|
                0 <= l < j ==> !is_root_goal(#[trigger] rest[l]);
        assert(rest[j] == gs[j + 1]);
        assert forall|l: int| 0 <= l < j + 1 implies !is_root_goal(#[trigger] gs[l]) by {
            if l > 0 {
                assert(gs[l] == rest[l - 1]);
            }
        }
    }
}

/// `label` is the label of a state with goals `gs`: the shortest position of
/// an obligation of a goal announced at the root (the lexicographically least
/// among the shortest).
pub open spec fn is_label_of(gs: Seq<GoalModel>, label: Seq<usize>) -> bool {
    &&& exists|k: int, j: int|
        #![trigger gs[k].obligations[j]]
        0 <= k < gs.len() && is_root_goal(gs[k]) && 0 <= j < gs[k].obligations.len()
            && gs[k].obligations[j].position == label
    &&& forall|k: int, j: int|
        #![trigger gs[k].obligations[j]]
        0 <= k < gs.len() && is_root_goal(gs[k]) && 0 <= j < gs[k].obligations.len() ==> !shortlex_lt(
            gs[k].obligations[j].position,
            label,
        )
}

impl State {
    /// Create a state from a set of match goals
    pub fn new(goals: Vec<MatchGoal>, num_transitions: usize) -> (result: State)
        requires
            first_root_goal_labelled(goals_view(goals@)),
        ensures
            result.match_goals@ == goals@,
            result.transitions@.len() == 0,
            is_label_of(goals_view(goals@), result.label@),
    {
        let ghost gs = goals_view(goals@);
        // The label of the state is taken from a match obligation of a root match goal.
        let mut label: Option<ExplicitPosition> = None;
        // Go through all match goals until a root match goal is found
        let mut k: usize = 0;
        while k < goals.len()
            invariant
                k <= gs.len(),
                gs == goals_view(goals@),
                first_root_goal_labelled(gs),
                label is None <==> !exists|i: int| 0 <= i < k && is_root_goal(#[trigger] gs[i]),
                label is Some ==> exists|i: int, j: int|
                    #![trigger gs[i].obligations[j]]
                    0 <= i < k && is_root_goal(gs[i]) && 0 <= j < gs[i].obligations.len()
                        && gs[i].obligations[j].position == label->0@,
                label is Some ==> forall|i: int, j: int|
                    #![trigger gs[i].obligations[j]]
                    0 <= i < k && is_root_goal(gs[i]) && 0 <= j < gs[i].obligations.len() ==> !shortlex_lt(
                        gs[i].obligations[j].position,
                        label->0@,
                    ),
            decreases gs.len() - k,
        {
            let goal = &goals[k];
            assert(gs[k as int] == goal@);
            if goal.announcement.position.is_empty() {
                // Find the shortest match obligation position.
                // This design decision was taken as it presumably has two advantages.
                // 1. Patterns that overlap will be more quickly distinguished, potentially decreasing
                // the size of the automaton.
                // 2. The average lookahead may be shorter.
                assert(is_root_goal(gs[k as int]));
                let ghost was_none = label is None;
                proof {
                    if was_none {
                        let f = choose|f: int|
                            0 <= f < gs.len() && is_root_goal(#[trigger] gs[f]) && gs[f].obligations.len() > 0
                                && forall|l: int| 0 <= l < f ==> !is_root_goal(#[trigger] gs[l]);
                        if f < k {
                            assert(is_root_goal(gs[f]));
                        }
                        if f > k {
                            assert(!is_root_goal(gs[k as int]));
                        }
                    }
                }
                if label.is_none() {
                    label = Some(goal.obligations[0].position.clone());
                    assert(gs[k as int].obligations[0].position == label->0@);
                }
                let mut j: usize = 0;
                while j < goal.obligations.len()
                    invariant
                        j <= goal@.obligations.len(),
                        k < gs.len(),
                        gs[k as int] == goal@,
                        is_root_goal(gs[k as int]),
                        label is Some,
                        exists|i: int, jj: int|
                            #![trigger gs[i].obligations[jj]]
                            0 <= i <= k && is_root_goal(gs[i]) && 0 <= jj < gs[i].obligations.len()
                                && gs[i].obligations[jj].position == label->0@,
                        forall|i: int, jj: int|
                            #![trigger gs[i].obligations[jj]]
                            0 <= i < k && is_root_goal(gs[i]) && 0 <= jj < gs[i].obligations.len()
                                ==> !shortlex_lt(gs[i].obligations[jj].position, label->0@),
                        forall|jj: int| 0 <= jj < j ==> !shortlex_lt(#[trigger] gs[k as int].obligations[jj].position, label->0@),
                    decreases goal@.obligations.len() - j,
                {
                    let obligation = &goal.obligations[j];
                    assert(gs[k as int].obligations[j as int] == obligation@);
                    let ghost old_label = label->0@;
                    if obligation.position.shorter_than(label.as_ref().unwrap()) {
                        label = Some(obligation.position.clone());
                        proof {
                            assert forall|i: int, jj: int|
                                #![trigger gs[i].obligations[jj]]
                                0 <= i < k && is_root_goal(gs[i]) && 0 <= jj < gs[i].obligations.len()
                                    implies !shortlex_lt(gs[i].obligations[jj].position, label->0@) by {
                                if shortlex_lt(gs[i].obligations[jj].position, label->0@) {
                                    lemma_shortlex_transitive(gs[i].obligations[jj].position, label->0@, old_label);
                                }
                            }
                            assert forall|jj: int| 0 <= jj < j + 1 implies !shortlex_lt(
                                #[trigger] gs[k as int].obligations[jj].position,
                                label->0@,
                            ) by {
                                if jj < j {
                                    if shortlex_lt(gs[k as int].obligations[jj].position, label->0@) {
                                        lemma_shortlex_transitive(
                                            gs[k as int].obligations[jj].position,
                                            label->0@,
                                            old_label,
                                        );
                                    }
                                } else {
                                    lemma_shortlex_irreflexive(label->0@);
                                }
                            }
                        }
                    }
                    j = j + 1;
                }
            }
            k = k + 1;
        }
        assert(gs.len() == goals@.len());
        State {
            label: label.unwrap(),
            transitions: Vec::with_capacity(num_transitions),
            match_goals: goals,
        }
    }
}

/// The sides of the conditions, one condition after the other.
pub open spec fn conditions_terms(cs: Seq<ConditionModel>) -> Seq<Term>
    decreases cs.len(),
{
    if cs.len() == 0 {
        Seq::empty()
    } else {
        conditions_terms(cs.drop_last()) + seq![cs.last().lhs, cs.last().rhs]
    }
}

/// The terms of a rule: its left and right hand side, then the sides of its
/// conditions.
pub open spec fn rule_terms(r: RuleModel) -> Seq<Term> {
    seq![r.lhs, r.rhs] + conditions_terms(r.conditions)
}

/// The terms of the rules, one rule after the other.
pub open spec fn rules_terms(rs: Seq<RuleModel>) -> Seq<Term>
    decreases rs.len(),
{
    if rs.len() == 0 {
        Seq::empty()
    } else {
        rules_terms(rs.drop_last()) + rule_terms(rs.last())
    }
}

/// The set automaton can use this rule: it has no higher order terms or
/// other constructs.
pub open spec fn rule_supported(r: RuleModel) -> bool {
    &&& is_supported(r.lhs)
    &&& is_supported(r.rhs)
    &&& forall|i: int|
        0 <= i < r.conditions.len() ==> is_supported((#[trigger] r.conditions[i]).lhs) && is_supported(
            r.conditions[i].rhs,
        )
}

/// The supported rules, in their order.
pub open spec fn supported_rules(rs: Seq<RuleModel>) -> Seq<RuleModel>
    decreases rs.len(),
{
    if rs.len() == 0 {
        Seq::empty()
    } else if rule_supported(rs.last()) {
        supported_rules(rs.drop_last()).push(rs.last())
    } else {
        supported_rules(rs.drop_last())
    }
}

/// Checks whether the set automaton can use this rule, no higher order rules or binders.
pub fn is_supported_rule(rule: &Rule) -> (result: bool)
    ensures
        result == rule_supported(rule@),
{
    // There should be no terms of the shape t(t0,...,t_n)
    if !is_supported_term(&rule.rhs) || !is_supported_term(&rule.lhs) {
        return false;
    }
    let mut i: usize = 0;
    while i < rule.conditions.len()
        invariant
            i <= rule.conditions@.len(),
            forall|j: int|
                0 <= j < i ==> is_supported((#[trigger] rule@.conditions[j]).lhs) && is_supported(
                    rule@.conditions[j].rhs,
                ),
        decreases rule.conditions@.len() - i,
    {
        let cond = &rule.conditions[i];
        assert(rule@.conditions[i as int] == cond@);
        if !is_supported_term(&cond.rhs) || !is_supported_term(&cond.lhs) {
            return false;
        }
        i = i + 1;
    }
    true
}

/// The terms of a sub-sequence agree on the arities of their symbols.
proof fn lemma_consistent_subset(all: Seq<Term>, xs: Seq<Term>)
    requires
        arities_consistent(all),
        forall|i: int| 0 <= i < xs.len() ==> all.contains(#[trigger] xs[i]),
    ensures
        arities_consistent(xs),
{
    assert forall|f: usize, n1: nat, n2: nat| occurs_in(xs, f, n1) && occurs_in(xs, f, n2) implies n1 == n2 by {
        let i1 = choose|i: int| 0 <= i < xs.len() && symbol_occurs(#[trigger] xs[i], f, n1);
        let i2 = choose|i: int| 0 <= i < xs.len() && symbol_occurs(#[trigger] xs[i], f, n2);
        assert(all.contains(xs[i1]));
        assert(all.contains(xs[i2]));
        let a1 = choose|a: int| 0 <= a < all.len() && all[a] == xs[i1];
        let a2 = choose|a: int| 0 <= a < all.len() && all[a] == xs[i2];
        assert(occurs_in(all, f, n1));
        assert(occurs_in(all, f, n2));
    }
}

/// The table of symbols found so far agrees with the next term, when all the
/// terms agree on arities.
proof fn lemma_table_agrees(b: Seq<(usize, usize)>, done: Seq<Term>, t: Term)
    requires
        table_update(Seq::empty(), b, done),
        arities_consistent(done.push(t)),
    ensures
        agrees_with(b, seq![t]),
        arities_consistent(seq![t]),
{
    let all = done.push(t);
    assert forall|f: usize, n: nat|
        #[trigger] occurs_in(seq![t], f, n) && f < b.len() && b[f as int] != (0usize, 0usize) implies b[f as int] == (
        f,
        n as usize,
    ) by {
        assert(seq![t][0] == t);
        assert(symbol_occurs(t, f, n));
        assert(all[done.len() as int] == t);
        assert(occurs_in(all, f, n));
        if exists|m: nat| #[trigger] occurrences(done)(f, m) {
            let m = choose|m: nat| #[trigger] occurrences(done)(f, m);
            let i = choose|i: int| 0 <= i < done.len() && symbol_occurs(#[trigger] done[i], f, m);
            assert(all[i] == done[i]);
            assert(occurs_in(all, f, m));
        }
    }
    assert forall|f: usize, n1: nat, n2: nat| occurs_in(seq![t], f, n1) && occurs_in(seq![t], f, n2) implies n1
        == n2 by {
        assert(seq![t][0] == t);
        assert(all[done.len() as int] == t);
        assert(occurs_in(all, f, n1));
        assert(occurs_in(all, f, n2));
    }
}

/// Extending the table with the symbols of one more term.
proof fn lemma_table_push(b: Seq<(usize, usize)>, c: Seq<(usize, usize)>, done: Seq<Term>, t: Term)
    requires
        table_update(Seq::empty(), b, done),
        table_update(b, c, seq![t]),
        arities_consistent(done.push(t)),
    ensures
        table_update(Seq::empty(), c, done.push(t)),
{
    let all = done.push(t);
    let occ = occurrences(all);
    let prev = occurrences(done);
    let one = occurrences(seq![t]);
    assert forall|f: usize, n: nat| #[trigger] prev(f, n) implies occ(f, n) by {
        let i = choose|i: int| 0 <= i < done.len() && symbol_occurs(#[trigger] done[i], f, n);
        assert(all[i] == done[i]);
    }
    assert forall|f: usize, n: nat| #[trigger] one(f, n) implies occ(f, n) by {
        assert(seq![t][0] == t);
        assert(all[done.len() as int] == t);
    }
    assert forall|f: usize, n: nat| #[trigger] occ(f, n) implies prev(f, n) || one(f, n) by {
        let i = choose|i: int| 0 <= i < all.len() && symbol_occurs(#[trigger] all[i], f, n);
        if i < done.len() {
            assert(all[i] == done[i]);
        } else {
            assert(seq![t][0] == t);
        }
    }
    assert forall|f: usize, n: nat| #[trigger] occ(f, n) implies f < c.len() && c[f as int] == (f, n as usize) by {
        if one(f, n) {
        } else {
            assert(prev(f, n));
            if exists|m: nat| #[trigger] one(f, m) {
                let m = choose|m: nat| #[trigger] one(f, m);
                assert(occ(f, m));
            }
        }
    }
    assert forall|f: int|
        0 <= f < c.len() && !(exists|n: nat| #[trigger] occ(f as usize, n)) implies #[trigger] c[f] == (
        0usize,
        0usize,
    ) by {
        assert forall|n: nat| !#[trigger] one(f as usize, n) by {
            if one(f as usize, n) {
                assert(occ(f as usize, n));
            }
        }
        assert forall|n: nat| !#[trigger] prev(f as usize, n) by {
            if prev(f as usize, n) {
                assert(occ(f as usize, n));
            }
        }
    }
    if c.len() > 0 {
        if c.len() > b.len() {
            let m = choose|m: nat| #[trigger] one((c.len() - 1) as usize, m);
            assert(occ((c.len() - 1) as usize, m));
        } else {
            let m = choose|m: nat| #[trigger] prev((b.len() - 1) as usize, m);
            assert(occ((c.len() - 1) as usize, m));
        }
    }
}

/// The terms of concatenated rule sequences are concatenated.
proof fn lemma_rules_terms_concat(a: Seq<RuleModel>, b: Seq<RuleModel>)
    ensures
        rules_terms(a + b) == rules_terms(a) + rules_terms(b),
    decreases b.len(),
{
    if b.len() == 0 {
        assert(a + b =~= a);
        assert(rules_terms(a) + rules_terms(b) =~= rules_terms(a));
    } else {
        lemma_rules_terms_concat(a, b.drop_last());
        assert((a + b).drop_last() =~= a + b.drop_last());
        assert((a + b).last() == b.last());
        assert(rules_terms(a + b) =~= rules_terms(a) + rules_terms(b));
    }
}

/// The sides of condition `i` are at indices `2 i` and `2 i + 1`.
proof fn lemma_conditions_terms_index(cs: Seq<ConditionModel>)
    ensures
        conditions_terms(cs).len() == 2 * cs.len(),
        forall|i: int|
            0 <= i < cs.len() ==> conditions_terms(cs)[2 * i] == (#[trigger] cs[i]).lhs && conditions_terms(
                cs,
            )[2 * i + 1] == cs[i].rhs,
    decreases cs.len(),
{
    if cs.len() > 0 {
        lemma_conditions_terms_index(cs.drop_last());
        assert forall|i: int| 0 <= i < cs.len() implies conditions_terms(cs)[2 * i] == (#[trigger] cs[i]).lhs
            && conditions_terms(cs)[2 * i + 1] == cs[i].rhs by {
            if i < cs.len() - 1 {
                assert(cs.drop_last()[i] == cs[i]);
            }
        }
    }
}

/// Adds the symbols of the next term of `all` to the table.
fn add_term_symbols(
    t: &ATerm,
    symbols: &mut Vec<(usize, usize)>,
    Ghost(all): Ghost<Seq<Term>>,
    Ghost(done): Ghost<Seq<Term>>,
)
    requires
        done.len() < all.len(),
        done == all.take(done.len() as int),
        all[done.len() as int] == t@,
        arities_consistent(all),
        table_update(Seq::empty(), old(symbols)@, done),
        is_supported(t@),
    ensures
        table_update(Seq::empty(), final(symbols)@, done.push(t@)),
        done.push(t@) == all.take(done.len() + 1int),
{
    assert(done.push(t@) =~= all.take(done.len() + 1int));
    proof {
        lemma_consistent_subset(all, done.push(t@));
        lemma_table_agrees(symbols@, done, t@);
    }
    let ghost before = symbols@;
    find_symbols(t, symbols);
    proof {
        lemma_table_push(before, symbols@, done, t@);
    }
}

/// Finds the indices of all the function symbols of the rules: the symbol
/// table of their terms.
pub fn symbol_table(rules: &Vec<Rule>) -> (result: Vec<(usize, usize)>)
    requires
        forall|k: int| 0 <= k < rules@.len() ==> rule_supported(#[trigger] rules@[k]@),
        arities_consistent(rules_terms(rules_view(rules@))),
    ensures
        symbol_table_of(rules_terms(rules_view(rules@)), result@),
{
    let ghost rs = rules_view(rules@);
    let ghost all = rules_terms(rs);
    let mut symbols: Vec<(usize, usize)> = Vec::new();
    let ghost mut done: Seq<Term> = Seq::empty();
    let mut k: usize = 0;
    assert(rs.take(0) =~= Seq::<RuleModel>::empty());
    assert(done =~= all.take(0));
    while k < rules.len()
        invariant
            k <= rs.len(),
            rs == rules_view(rules@),
            all == rules_terms(rs),
            forall|k: int| 0 <= k < rules@.len() ==> rule_supported(#[trigger] rules@[k]@),
            arities_consistent(all),
            done == rules_terms(rs.take(k as int)),
            done == all.take(done.len() as int),
            table_update(Seq::empty(), symbols@, done),
        decreases rs.len() - k,
    {
        let rule = &rules[k];
        let ghost r = rule@;
        assert(rs[k as int] == r);
        assert(rule_supported(rules@[k as int]@));
        proof {
            assert(rs.take(k + 1) =~= rs.take(k as int).push(r));
            assert(rs =~= rs.take(k + 1) + rs.skip(k + 1));
            lemma_rules_terms_concat(rs.take(k + 1), rs.skip(k + 1));
            assert(rs.take(k + 1).drop_last() =~= rs.take(k as int));
            assert(rules_terms(rs.take(k + 1)) == done + rule_terms(r));
            lemma_conditions_terms_index(r.conditions);
        }
        let ghost base = done;
        let ghost rt = rule_terms(r);
        assert(all =~= base + rt + rules_terms(rs.skip(k + 1)));
        assert(rt[0] == r.lhs);
        add_term_symbols(&rule.lhs, &mut symbols, Ghost(all), Ghost(done));
        proof {
            done = done.push(r.lhs);
        }
        assert(rt[1] == r.rhs);
        add_term_symbols(&rule.rhs, &mut symbols, Ghost(all), Ghost(done));
        proof {
            done = done.push(r.rhs);
        }
        let mut i: usize = 0;
        assert(done =~= base + rt.take(2));
        while i < rule.conditions.len()
            invariant
                i <= r.conditions.len(),
                r == rule@,
                rule_supported(r),
                rt == rule_terms(r),
                rt.len() == 2 + 2 * r.conditions.len(),
                forall|c: int|
                    0 <= c < r.conditions.len() ==> rt[2 + 2 * c] == (#[trigger] r.conditions[c]).lhs && rt[3 + 2
                        * c] == r.conditions[c].rhs,
                all == base + rt + rules_terms(rs.skip(k + 1)),
                arities_consistent(all),
                done == base + rt.take(2 + 2 * i),
                done == all.take(done.len() as int),
                table_update(Seq::empty(), symbols@, done),
            decreases r.conditions.len() - i,
        {
            let cond = &rule.conditions[i];
            assert(r.conditions[i as int] == cond@);
            assert(rt[2 + 2 * i] == cond@.lhs);
            assert(all[done.len() as int] == cond@.lhs);
            add_term_symbols(&cond.lhs, &mut symbols, Ghost(all), Ghost(done));
            proof {
                done = done.push(cond@.lhs);
            }
            assert(all[done.len() as int] == cond@.rhs);
            add_term_symbols(&cond.rhs, &mut symbols, Ghost(all), Ghost(done));
            proof {
                done = done.push(cond@.rhs);
                assert(done =~= base + rt.take(2 + 2 * (i + 1)));
            }
            i = i + 1;
        }
        assert(rt.take(2 + 2 * r.conditions.len() as int) =~= rt);
        k = k + 1;
    }
    assert(rs.take(rs.len() as int) =~= rs);
    symbols
}

/// The goals of a derivative keep the rules of the goals they come from.
pub proof fn lemma_derivative_rules(gs: Seq<GoalModel>, label: Seq<usize>, f: usize, rules: Seq<RuleModel>)
    requires
        rules_of(gs, rules),
    ensures
        rules_of(derivative_of(gs, label, f).0, rules),
        rules_of(derivative_of(gs, label, f).1, rules),
        rules_of(derivative_of(gs, label, f).2, rules),
    decreases gs.len(),
{
    if gs.len() > 0 {
        let rest = gs.drop_last();
        assert(rules_of(rest, rules)) by {
            assert forall|k: int| 0 <= k < rest.len() implies rules.contains(#[trigger] rest[k].announcement.rule) by {
                assert(rest[k] == gs[k]);
            }
        }
        lemma_derivative_rules(rest, label, f, rules);
        assert(rules.contains(gs[gs.len() - 1].announcement.rule));
        let d = derivative_of(gs, label, f);
        let r = derivative_of(rest, label, f);
        assert forall|k: int| 0 <= k < d.0.len() implies rules.contains(#[trigger] d.0[k].announcement.rule) by {
            if k < r.0.len() {
                assert(d.0[k] == r.0[k]);
            }
        }
        assert forall|k: int| 0 <= k < d.1.len() implies rules.contains(#[trigger] d.1[k].announcement.rule) by {
            if k < r.1.len() {
                assert(d.1[k] == r.1[k]);
            }
        }
        assert forall|k: int| 0 <= k < d.2.len() implies rules.contains(#[trigger] d.2[k].announcement.rule) by {
            if k < r.2.len() {
                assert(d.2[k] == r.2[k]);
            }
        }
    }
}

/// The fresh goals that join a partition have rules among `rules`.
proof fn lemma_fresh_for_rules(
    parts: Seq<(Seq<GoalModel>, Seq<Seq<usize>>)>,
    gcps: Seq<Seq<usize>>,
    label: Seq<usize>,
    rules: Seq<RuleModel>,
    i: int,
    c: nat,
)
    ensures
        rules_of(fresh_for(parts, gcps, label, rules, i, c), rules),
    decreases c,
{
    if c > 0 {
        lemma_fresh_for_rules(parts, gcps, label, rules, i, (c - 1) as nat);
        let rest = fresh_for(parts, gcps, label, rules, i, (c - 1) as nat);
        let pos = fresh_position(label, c);
        let fg = fresh_goals(rules, relative_position(pos, gcps[i].len()));
        let all = fresh_for(parts, gcps, label, rules, i, c);
        assert forall|k: int| 0 <= k < all.len() implies rules.contains(#[trigger] all[k].announcement.rule) by {
            if k < rest.len() {
                assert(all[k] == rest[k]);
            } else {
                assert(all[k] == fg[k - rest.len()]);
                assert(rules[k - rest.len()] == fg[k - rest.len()].announcement.rule);
            }
        }
    }
}

/// The transitions to the initial state lead nowhere else.
pub proof fn lemma_initial_destinations(parts: Seq<(Seq<GoalModel>, Seq<Seq<usize>>)>, label: Seq<usize>, c: nat)
    ensures
        forall|m: int|
            0 <= m < initial_destinations(parts, label, c).len() ==> (#[trigger] initial_destinations(
                parts,
                label,
                c,
            )[m]).1 == DestinationModel::InitialState,
    decreases c,
{
    if c > 0 {
        lemma_initial_destinations(parts, label, (c - 1) as nat);
        let rest = initial_destinations(parts, label, (c - 1) as nat);
        assert forall|m: int| 0 <= m < initial_destinations(parts, label, c).len() implies (
        #[trigger] initial_destinations(parts, label, c)[m]).1 == DestinationModel::InitialState by {
            if m < rest.len() {
                assert(initial_destinations(parts, label, c)[m] == rest[m]);
            }
        }
    }
}

/// The goals of every destination have rules among `rules`.
pub proof fn lemma_destinations_rules(
    new_goals: Seq<GoalModel>,
    label: Seq<usize>,
    rules: Seq<RuleModel>,
    arity: nat,
    apma: bool,
    dests: Seq<(Seq<usize>, DestinationModel)>,
)
    requires
        rules_of(new_goals, rules),
        destinations_of(new_goals, label, rules, arity, apma, dests),
    ensures
        forall|m: int|
            0 <= m < dests.len() && (#[trigger] dests[m]).1 is Goals ==> rules_of(dests[m].1->Goals_0, rules),
{
    if !apma {
        let (parts, gcps) = choose|parts: Seq<(Seq<GoalModel>, Seq<Seq<usize>>)>, gcps: Seq<Seq<usize>>|
            #![trigger is_partition(new_goals, parts), transition_destinations(parts, gcps, label, rules, arity)]
            is_partition(new_goals, parts) && gcps.len() == parts.len() && (forall|i: int|
                0 <= i < parts.len() ==> greatest_common_prefix_of(
                    (#[trigger] parts[i]).0,
                    gcps[i],
                )) && dests.to_multiset() == transition_destinations(
                parts,
                gcps,
                label,
                rules,
                arity,
            ).to_multiset();
        let td = transition_destinations(parts, gcps, label, rules, arity);
        lemma_partition_rules(new_goals, parts, rules);
        lemma_initial_destinations(parts, label, arity);
        assert forall|m: int| 0 <= m < dests.len() && (#[trigger] dests[m]).1 is Goals implies rules_of(
            dests[m].1->Goals_0,
            rules,
        ) by {
            vstd::seq_lib::to_multiset_contains(dests, dests[m]);
            vstd::seq_lib::to_multiset_contains(td, dests[m]);
            assert(dests.contains(dests[m]));
            assert(td.contains(dests[m]));
            let i = choose|i: int| 0 <= i < td.len() && td[i] == dests[m];
            if i < parts.len() {
                lemma_fresh_for_rules(parts, gcps, label, rules, i, arity);
                let a = goals_without_prefix(parts[i].0, gcps[i].len());
                let b = fresh_for(parts, gcps, label, rules, i, arity);
                let gl = dests[m].1->Goals_0;
                assert(gl == a + b);
                assert forall|k: int| 0 <= k < gl.len() implies rules.contains(#[trigger] gl[k].announcement.rule) by {
                    if k < a.len() {
                        assert(gl[k] == a[k]);
                        assert(a[k].announcement.rule == parts[i].0[k].announcement.rule);
                    } else {
                        assert(gl[k] == b[k - a.len()]);
                    }
                }
            } else {
                let init = initial_destinations(parts, label, arity);
                assert(td[i] == init[i - parts.len()]);
            }
        }
    }
}

/// The model of a resolved destination: a position and a state index.
pub open spec fn resolved_view(s: Seq<(ExplicitPosition, usize)>) -> Seq<(Seq<usize>, usize)> {
    s.map_values(|d: (ExplicitPosition, usize)| (d.0@, d.1))
}

/// Some state has the goals (as a set).
pub open spec fn has_state(goal_sets: Seq<Seq<GoalModel>>, gl: Seq<GoalModel>) -> bool {
    exists|i: int| 0 <= i < goal_sets.len() && same_goal_set(#[trigger] goal_sets[i], gl)
}

/// The destinations with their goals replaced by the state that has those
/// goals; a destination whose goals no state has is left out.
pub open spec fn resolved(dests: Seq<(Seq<usize>, DestinationModel)>, goal_sets: Seq<Seq<GoalModel>>) -> Seq<
    (Seq<usize>, usize),
>
    decreases dests.len(),
{
    if dests.len() == 0 {
        Seq::empty()
    } else {
        let rest = resolved(dests.drop_last(), goal_sets);
        let (pos, d) = dests.last();
        match d {
            DestinationModel::InitialState => rest.push((pos, 0usize)),
            DestinationModel::Goals(gl) => if has_state(goal_sets, gl) {
                rest.push(
                    (
                        pos,
                        (choose|i: int| 0 <= i < goal_sets.len() && same_goal_set(#[trigger] goal_sets[i], gl)) as usize,
                    ),
                )
            } else {
                rest
            },
        }
    }
}

/// Every destination whose goals no state has is without goals.
pub open spec fn drops_allowed(dests: Seq<(Seq<usize>, DestinationModel)>, goal_sets: Seq<Seq<GoalModel>>) -> bool {
    forall|m: int|
        0 <= m < dests.len() && (#[trigger] dests[m]).1 is Goals && !has_state(goal_sets, dests[m].1->Goals_0)
            ==> dests[m].1->Goals_0.len() == 0
}

/// The announcements and the destinations of the transition for `symbol`
/// with `arity` from the goals `gs` at `label`, see [State::derive_transition].
pub open spec fn derived(
    label: Seq<usize>,
    gs: Seq<GoalModel>,
    symbol: usize,
    arity: usize,
    rules: Seq<RuleModel>,
    apma: bool,
    outputs: Seq<AnnouncementModel>,
    dests: Seq<(Seq<usize>, DestinationModel)>,
) -> bool {
    if symbol == 0 {
        outputs.len() == 0 && dests.len() == 0
    } else {
        let d = derivative_of(gs, label, symbol);
        &&& outputs == goal_announcements(d.0)
        &&& exists|reduced: Seq<GoalModel>|
            obligations_sorted_from(d.2, reduced) && destinations_of(
                d.1 + reduced,
                label,
                rules,
                arity as nat,
                apma,
                dests,
            )
    }
}

/// The destinations are sorted by position.
pub open spec fn destinations_sorted(s: Seq<(Seq<usize>, usize)>) -> bool {
    forall|i: int, j: int| 0 <= i < j < s.len() ==> !lex_lt(s[j].0, s[i].0)
}

/// The transition of a state with goals `gs` at `label` on the symbol table
/// entry `entry`: its announcements are the compiled announcements of the
/// completed goals, sorted by position, and its destinations are the states
/// that have the goals of the destinations (by position); a destination
/// without goals is left out.
pub open spec fn transition_of(
    t: Transition,
    label: Seq<usize>,
    gs: Seq<GoalModel>,
    entry: (usize, usize),
    rules: Seq<RuleModel>,
    apma: bool,
    goal_sets: Seq<Seq<GoalModel>>,
) -> bool {
    &&& t.symbol == entry.0
    &&& sorted_by_position(t.announcements@)
    &&& forall|i: int| 0 <= i < t.announcements@.len() ==> is_compiled(#[trigger] t.announcements@[i])
    &&& exists|outputs: Seq<AnnouncementModel>, dests: Seq<(Seq<usize>, DestinationModel)>|
        derived(label, gs, entry.0, entry.1, rules, apma, outputs, dests) && models(
            t.announcements@,
        ).to_multiset() == outputs.to_multiset() && resolved_view(t.destinations@) == resolved(
            dests,
            goal_sets,
        ) && drops_allowed(dests, goal_sets)
}

/// The goal sets of the states are pairwise different.
pub open spec fn distinct_sets(goal_sets: Seq<Seq<GoalModel>>) -> bool {
    forall|i: int, j: int|
        0 <= i < j < goal_sets.len() ==> !same_goal_set(#[trigger] goal_sets[i], #[trigger] goal_sets[j])
}

/// Adding a state with new goals changes no resolved destination.
proof fn lemma_resolved_stable(
    dests: Seq<(Seq<usize>, DestinationModel)>,
    goal_sets: Seq<Seq<GoalModel>>,
    x: Seq<GoalModel>,
)
    requires
        distinct_sets(goal_sets),
        !has_state(goal_sets, x),
        x.len() > 0,
        drops_allowed(dests, goal_sets),
    ensures
        resolved(dests, goal_sets.push(x)) == resolved(dests, goal_sets),
        drops_allowed(dests, goal_sets.push(x)),
    decreases dests.len(),
{
    let g2 = goal_sets.push(x);
    if dests.len() > 0 {
        let rest = dests.drop_last();
        assert(drops_allowed(rest, goal_sets)) by {
            assert forall|m: int|
                0 <= m < rest.len() && (#[trigger] rest[m]).1 is Goals && !has_state(goal_sets, rest[m].1->Goals_0)
                    implies rest[m].1->Goals_0.len() == 0 by {
                assert(rest[m] == dests[m]);
            }
        }
        lemma_resolved_stable(rest, goal_sets, x);
        let (pos, d) = dests.last();
        let m = dests.len() - 1;
        assert(dests[m] == dests.last());
        match d {
            DestinationModel::InitialState => {},
            DestinationModel::Goals(gl) => {
                if has_state(goal_sets, gl) {
                    let i0 = choose|i: int| 0 <= i < goal_sets.len() && same_goal_set(#[trigger] goal_sets[i], gl);
                    assert(g2[i0] == goal_sets[i0]);
                    assert(has_state(g2, gl));
                    let i1 = choose|i: int| 0 <= i < g2.len() && same_goal_set(#[trigger] g2[i], gl);
                    if i1 != i0 {
                        if i1 < goal_sets.len() {
                            assert(g2[i1] == goal_sets[i1]);
                            if i0 < i1 {
                                assert(!same_goal_set(goal_sets[i0], goal_sets[i1]));
                            } else {
                                assert(!same_goal_set(goal_sets[i1], goal_sets[i0]));
                            }
                        } else {
                            assert(g2[i1] == x);
                            assert(same_goal_set(goal_sets[i0], x));
                        }
                    }
                } else {
                    if has_state(g2, gl) {
                        let i1 = choose|i: int| 0 <= i < g2.len() && same_goal_set(#[trigger] g2[i], gl);
                        if i1 < goal_sets.len() {
                            assert(g2[i1] == goal_sets[i1]);
                        } else {
                            assert(g2[i1] == x);
                            assert(gl.len() == 0);
                            assert(x.contains(x[0]));
                            assert(gl.contains(x[0]));
                        }
                    }
                }
            },
        }
        assert forall|mm: int|
            0 <= mm < dests.len() && (#[trigger] dests[mm]).1 is Goals && !has_state(g2, dests[mm].1->Goals_0)
                implies dests[mm].1->Goals_0.len() == 0 by {
            let gl = dests[mm].1->Goals_0;
            if has_state(goal_sets, gl) {
                let i0 = choose|i: int| 0 <= i < goal_sets.len() && same_goal_set(#[trigger] goal_sets[i], gl);
                assert(g2[i0] == goal_sets[i0]);
            }
        }
    }
}

/// The rules that the set automaton can use, in their order.
fn filter_supported(rules: &Vec<Rule>) -> (result: Vec<Rule>)
    ensures
        rules_view(result@) == supported_rules(rules_view(rules@)),
        forall|k: int| 0 <= k < result@.len() ==> rule_supported(#[trigger] result@[k]@),
{
    let ghost rs = rules_view(rules@);
    let mut result: Vec<Rule> = Vec::new();
    let mut k: usize = 0;
    assert(rs.take(0) =~= Seq::<RuleModel>::empty());
    assert(rules_view(result@) =~= Seq::<RuleModel>::empty());
    while k < rules.len()
        invariant
            k <= rs.len(),
            rs == rules_view(rules@),
            rules_view(result@) == supported_rules(rs.take(k as int)),
            forall|i: int| 0 <= i < result@.len() ==> rule_supported(#[trigger] result@[i]@),
        decreases rs.len() - k,
    {
        let rule = &rules[k];
        assert(rs[k as int] == rule@);
        assert(rs.take(k + 1).drop_last() =~= rs.take(k as int));
        assert(rs.take(k + 1).last() == rule@);
        let ghost before = rules_view(result@);
        if is_supported_rule(rule) {
            result.push(rule.copy());
            assert(rules_view(result@) =~= before.push(rule@));
        }
        k = k + 1;
    }
    assert(rs.take(rs.len() as int) =~= rs);
    result
}

/// The goal sets of the states.
pub open spec fn state_goal_sets(states: Seq<State>) -> Seq<Seq<GoalModel>> {
    Seq::new(states.len(), |i: int| goals_view(states[i].match_goals@))
}

/// Finds the state with the given goals (as a set).
fn find_state(states: &Vec<State>, goals: &Vec<MatchGoal>) -> (result: Option<usize>)
    ensures
        match result {
            Some(i) => i < states@.len() && same_goal_set(state_goal_sets(states@)[i as int], goals_view(goals@)),
            None => !has_state(state_goal_sets(states@), goals_view(goals@)),
        },
{
    let ghost gsets = state_goal_sets(states@);
    let mut i: usize = 0;
    while i < states.len()
        invariant
            i <= states@.len(),
            gsets == state_goal_sets(states@),
            forall|a: int| 0 <= a < i ==> !same_goal_set(#[trigger] gsets[a], goals_view(goals@)),
        decreases states@.len() - i,
    {
        assert(gsets[i as int] == goals_view(states@[i as int].match_goals@));
        if same_goals(&states[i].match_goals, goals) {
            return Some(i);
        }
        i = i + 1;
    }
    None
}

/// Compiles the announcements, whose rules are among the well-formed `rules`.
fn compile_announcements(outputs: Vec<MatchAnnouncement>, Ghost(rules): Ghost<Seq<RuleModel>>) -> (result: Vec<
    EnhancedMatchAnnouncement,
>)
    requires
        forall|k: int| 0 <= k < rules.len() ==> rule_well_formed(#[trigger] rules[k]),
        forall|k: int| 0 <= k < outputs@.len() ==> rules.contains(#[trigger] outputs@[k]@.rule),
    ensures
        models(result@) == announcements_view(outputs@),
        forall|i: int| 0 <= i < result@.len() ==> is_compiled(#[trigger] result@[i]),
{
    let ghost original = announcements_view(outputs@);
    let mut outputs = outputs;
    let mut result: Vec<EnhancedMatchAnnouncement> = Vec::new();
    let ghost mut k: int = 0;
    while outputs.len() > 0
        invariant
            0 <= k <= original.len(),
            announcements_view(outputs@) == original.skip(k),
            models(result@) == original.take(k),
            forall|k: int| 0 <= k < rules.len() ==> rule_well_formed(#[trigger] rules[k]),
            forall|i: int| 0 <= i < original.len() ==> rules.contains(#[trigger] original[i].rule),
            forall|i: int| 0 <= i < result@.len() ==> is_compiled(#[trigger] result@[i]),
        decreases outputs@.len(),
    {
        let ghost old_outputs = outputs@;
        assert(announcements_view(old_outputs).len() == old_outputs.len());
        assert(original.skip(k)[0] == original[k]);
        let x = outputs.remove(0);
        assert(announcements_view(old_outputs)[0] == x@);
        assert(rules.contains(x@.rule));
        proof {
            let r = choose|r: int| 0 <= r < rules.len() && rules[r] == x@.rule;
            assert(rule_well_formed(rules[r]));
        }
        let ghost before = models(result@);
        let e = EnhancedMatchAnnouncement::new(x);
        result.push(e);
        proof {
            assert(models(result@) =~= before.push(original[k]));
            assert(original.take(k + 1) =~= original.take(k).push(original[k]));
            assert forall|i: int| 0 <= i < outputs@.len() implies announcements_view(outputs@)[i] == original.skip(
                k + 1,
            )[i] by {
                assert(outputs@[i] == old_outputs[i + 1]);
                assert(announcements_view(old_outputs)[i + 1] == original.skip(k)[i + 1]);
            }
            assert(announcements_view(outputs@) =~= original.skip(k + 1));
            k = k + 1;
        }
    }
    assert(original.take(k) =~= original);
    result
}

/// Every resolved destination has the position of a destination.
proof fn lemma_resolved_from(dests: Seq<(Seq<usize>, DestinationModel)>, goal_sets: Seq<Seq<GoalModel>>)
    ensures
        forall|e: int|
            0 <= e < resolved(dests, goal_sets).len() ==> exists|m: int|
                0 <= m < dests.len() && (#[trigger] dests[m]).0 == (#[trigger] resolved(dests, goal_sets)[e]).0,
    decreases dests.len(),
{
    if dests.len() > 0 {
        let rest = dests.drop_last();
        lemma_resolved_from(rest, goal_sets);
        let r = resolved(dests, goal_sets);
        let rr = resolved(rest, goal_sets);
        assert forall|e: int| 0 <= e < r.len() implies exists|m: int|
            0 <= m < dests.len() && (#[trigger] dests[m]).0 == (#[trigger] r[e]).0 by {
            if e < rr.len() {
                assert(r[e] == rr[e]);
                let m = choose|m: int| 0 <= m < rest.len() && (#[trigger] rest[m]).0 == (#[trigger] rr[e]).0;
                assert(dests[m] == rest[m]);
            } else {
                assert(dests[dests.len() - 1] == dests.last());
            }
        }
    }
}

/// Resolving sorted destinations keeps them sorted.
proof fn lemma_resolved_sorted(dests: Seq<(Seq<usize>, DestinationModel)>, goal_sets: Seq<Seq<GoalModel>>)
    requires
        forall|i: int, j: int| 0 <= i < j < dests.len() ==> !lex_lt(dests[j].0, dests[i].0),
    ensures
        destinations_sorted(resolved(dests, goal_sets)),
    decreases dests.len(),
{
    if dests.len() > 0 {
        let rest = dests.drop_last();
        lemma_resolved_sorted(rest, goal_sets);
        lemma_resolved_from(rest, goal_sets);
        let r = resolved(dests, goal_sets);
        let rr = resolved(rest, goal_sets);
        assert forall|i: int, j: int| 0 <= i < j < r.len() implies !lex_lt(r[j].0, r[i].0) by {
            if j < rr.len() {
                assert(r[i] == rr[i]);
                assert(r[j] == rr[j]);
            } else {
                assert(r[i] == rr[i]);
                let m = choose|m: int| 0 <= m < rest.len() && (#[trigger] rest[m]).0 == (#[trigger] rr[i]).0;
                assert(dests[m] == rest[m]);
                assert(r[j].0 == dests[dests.len() - 1].0);
            }
        }
    }
}

/// The Set Automaton used for matching based on
#[derive(Debug)]
pub struct SetAutomaton {
    pub states: Vec<State>,
}

/// The rules of a specification can be used to build a set automaton: the
/// supported ones agree on the arities of their symbols, which leave room
/// for two more indices, and are well formed.
pub open spec fn rules_usable(rules: Seq<RuleModel>) -> bool {
    let rs = supported_rules(rules);
    &&& arities_consistent(rules_terms(rs))
    &&& forall|f: usize, n: nat| occurs_in(rules_terms(rs), f, n) ==> n < usize::MAX - 1
    &&& forall|k: int| 0 <= k < rs.len() ==> rule_well_formed(#[trigger] rs[k])
}

/// The states are those of the set automaton of the rules for the symbol
/// table, where state `s` stands for the goals `goal_sets[s]`: the initial
/// state has a fresh goal for each rule at the root, every other state has
/// distinct goals that can be labelled and the label of those goals, the
/// goals of every state are goals of the rules and in shape (so that their derivative is defined,
/// see [lemma_derivative_defined]), layered for the label of the state (so
/// that no fresh position lies above the common prefix of the goals it
/// joins) and, when matches are announced at the root only (apma),
/// announced at the root, and every state has one
/// transition per entry of the symbol table (the match goals themselves are
/// cleared).
pub open spec fn automaton_of(
    states: Seq<State>,
    goal_sets: Seq<Seq<GoalModel>>,
    rules: Seq<RuleModel>,
    table: Seq<(usize, usize)>,
    apma: bool,
) -> bool {
    &&& states.len() == goal_sets.len()
    &&& states.len() <= usize::MAX
    &&& forall|i: int| 0 <= i < goal_sets.len() ==> goals_in_shape(#[trigger] goal_sets[i], rules_terms(rules))
    &&& apma ==> forall|i: int| 0 <= i < goal_sets.len() ==> all_root(#[trigger] goal_sets[i])
    &&& forall|i: int| 0 <= i < goal_sets.len() ==> goals_layered(#[trigger] goal_sets[i], states[i].label@)
    &&& forall|i: int| 0 <= i < goal_sets.len() ==> rules_of(#[trigger] goal_sets[i], rules)
    &&& states.len() >= 1
    &&& goal_sets[0] == fresh_goals(rules, Seq::empty())
    &&& states[0].label@ == Seq::<usize>::empty()
    &&& forall|i: int|
        1 <= i < states.len() ==> (#[trigger] goal_sets[i]).len() > 0 && label_defined(goal_sets[i])
            && is_label_of(goal_sets[i], states[i].label@)
    &&& distinct_sets(goal_sets)
    &&& forall|i: int|
        0 <= i < states.len() ==> (#[trigger] states[i]).match_goals@.len() == 0 && states[i].transitions@.len()
            == table.len() && forall|j: int|
            0 <= j < table.len() ==> transition_of(
                #[trigger] states[i].transitions@[j],
                states[i].label@,
                goal_sets[i],
                table[j],
                rules,
                apma,
                goal_sets,
            )
}

/// Only supported rules are kept: a rule that is not supported (see
/// [rule_supported]) is in no automaton built from the supported rules.
pub proof fn lemma_supported_rules_supported(rs: Seq<RuleModel>)
    ensures
        forall|k: int| 0 <= k < supported_rules(rs).len() ==> rule_supported(#[trigger] supported_rules(rs)[k]),
        forall|r: RuleModel| #[trigger] supported_rules(rs).contains(r) ==> rs.contains(r),
    decreases rs.len(),
{
    if rs.len() > 0 {
        let rest = rs.drop_last();
        lemma_supported_rules_supported(rest);
        let a = supported_rules(rest);
        let b = supported_rules(rs);
        assert forall|k: int| 0 <= k < b.len() implies rule_supported(#[trigger] b[k]) by {
            if k < a.len() {
                assert(b[k] == a[k]);
            }
        }
        assert forall|r: RuleModel| #[trigger] b.contains(r) implies rs.contains(r) by {
            let k = choose|k: int| 0 <= k < b.len() && b[k] == r;
            if k < a.len() {
                assert(b[k] == a[k]);
                assert(a.contains(r));
                let m = choose|m: int| 0 <= m < rest.len() && rest[m] == r;
                assert(rs[m] == r);
            } else {
                assert(rs[rs.len() - 1] == r);
            }
        }
    }
}

/// Every destination that `resolved` gives is a state.
proof fn lemma_resolved_in_range(dests: Seq<(Seq<usize>, DestinationModel)>, goal_sets: Seq<Seq<GoalModel>>)
    requires
        goal_sets.len() >= 1,
        goal_sets.len() <= usize::MAX,
    ensures
        forall|k: int| 0 <= k < resolved(dests, goal_sets).len() ==> (#[trigger] resolved(dests, goal_sets)[k]).1
            < goal_sets.len(),
    decreases dests.len(),
{
    if dests.len() > 0 {
        lemma_resolved_in_range(dests.drop_last(), goal_sets);
        let rest = resolved(dests.drop_last(), goal_sets);
        let r = resolved(dests, goal_sets);
        assert forall|k: int| 0 <= k < r.len() implies (#[trigger] r[k]).1 < goal_sets.len() by {
            if k < rest.len() {
                assert(r[k] == rest[k]);
            }
        }
    }
}

/// The transitions of an automaton lead to its states, and the rules that
/// they announce are among the rules it was built from (for an automaton of
/// a specification: its supported rules).
pub proof fn lemma_automaton_closed(
    states: Seq<State>,
    goal_sets: Seq<Seq<GoalModel>>,
    rules: Seq<RuleModel>,
    table: Seq<(usize, usize)>,
    apma: bool,
)
    requires
        automaton_of(states, goal_sets, rules, table, apma),
    ensures
        forall|i: int, j: int, k: int|
            0 <= i < states.len() && 0 <= j < states[i].transitions@.len() && 0 <= k
                < states[i].transitions@[j].destinations@.len() ==> (#[trigger] states[i].transitions@[j].destinations@[k]).1
                < states.len(),
        forall|i: int, j: int, k: int|
            0 <= i < states.len() && 0 <= j < states[i].transitions@.len() && 0 <= k
                < states[i].transitions@[j].announcements@.len() ==> rules.contains(
                (#[trigger] states[i].transitions@[j].announcements@[k]).announcement@.rule,
            ),
{
    assert forall|i: int, j: int, k: int|
        0 <= i < states.len() && 0 <= j < states[i].transitions@.len() && 0 <= k
            < states[i].transitions@[j].destinations@.len() implies (#[trigger] states[i].transitions@[j].destinations@[k]).1
            < states.len() by {
        let tr = states[i].transitions@[j];
        assert(transition_of(tr, states[i].label@, goal_sets[i], table[j], rules, apma, goal_sets));
        let (outputs, dests) = choose|outputs: Seq<AnnouncementModel>, dests: Seq<(Seq<usize>, DestinationModel)>|
            derived(states[i].label@, goal_sets[i], table[j].0, table[j].1, rules, apma, outputs, dests) && models(
                tr.announcements@,
            ).to_multiset() == outputs.to_multiset() && resolved_view(tr.destinations@) == resolved(dests, goal_sets)
                && drops_allowed(dests, goal_sets);
        lemma_resolved_in_range(dests, goal_sets);
        assert(resolved_view(tr.destinations@)[k] == (tr.destinations@[k].0@, tr.destinations@[k].1));
    }
    assert forall|i: int, j: int, k: int|
        0 <= i < states.len() && 0 <= j < states[i].transitions@.len() && 0 <= k
            < states[i].transitions@[j].announcements@.len() implies rules.contains(
            (#[trigger] states[i].transitions@[j].announcements@[k]).announcement@.rule,
        ) by {
        let tr = states[i].transitions@[j];
        let gs = goal_sets[i];
        let label = states[i].label@;
        assert(transition_of(tr, label, gs, table[j], rules, apma, goal_sets));
        let (outputs, dests) = choose|outputs: Seq<AnnouncementModel>, dests: Seq<(Seq<usize>, DestinationModel)>|
            derived(label, gs, table[j].0, table[j].1, rules, apma, outputs, dests) && models(
                tr.announcements@,
            ).to_multiset() == outputs.to_multiset() && resolved_view(tr.destinations@) == resolved(dests, goal_sets)
                && drops_allowed(dests, goal_sets);
        let anns = tr.announcements@;
        let e = anns[k];
        assert(models(anns)[k] == e.announcement@);
        vstd::seq_lib::to_multiset_contains(models(anns), e.announcement@);
        vstd::seq_lib::to_multiset_contains(outputs, e.announcement@);
        assert(outputs.contains(e.announcement@));
        if table[j].0 == 0 {
            assert(outputs.len() == 0);
        }
        let f = table[j].0;
        let d = derivative_of(gs, label, f);
        assert(rules_of(gs, rules));
        lemma_derivative_rules(gs, label, f, rules);
        let c = choose|c: int| 0 <= c < outputs.len() && outputs[c] == e.announcement@;
        assert(outputs[c] == d.0[c].announcement);
    }
}

/// The invariant of the construction: the goal sets of the states so far.
pub open spec fn construction_invariant(
    states: Seq<State>,
    rules: Seq<RuleModel>,
) -> bool {
    let gsets = state_goal_sets(states);
    &&& states.len() >= 1
    &&& gsets[0] == fresh_goals(rules, Seq::empty())
    &&& states[0].label@ == Seq::<usize>::empty()
    &&& forall|i: int|
        1 <= i < states.len() ==> (#[trigger] gsets[i]).len() > 0 && label_defined(gsets[i]) && is_label_of(
            gsets[i],
            states[i].label@,
        )
    &&& distinct_sets(gsets)
    &&& forall|i: int| 0 <= i < states.len() ==> rules_of(#[trigger] gsets[i], rules)
    &&& forall|i: int| 0 <= i < states.len() ==> goals_in_shape(#[trigger] gsets[i], rules_terms(rules))
    &&& forall|i: int| 0 <= i < states.len() ==> goals_layered(#[trigger] gsets[i], states[i].label@)
}

/// The transitions computed so far are those of their states.
pub open spec fn transitions_done(
    transitions: Seq<Vec<Transition>>,
    states: Seq<State>,
    rules: Seq<RuleModel>,
    table: Seq<(usize, usize)>,
    apma: bool,
) -> bool {
    forall|i: int|
        0 <= i < transitions.len() ==> (#[trigger] transitions[i])@.len() == table.len() && forall|j: int|
            0 <= j < table.len() ==> transition_of(
                #[trigger] transitions[i]@[j],
                states[i].label@,
                state_goal_sets(states)[i],
                table[j],
                rules,
                apma,
                state_goal_sets(states),
            )
}

/// Adding a state with new goals keeps a transition what it is.
proof fn lemma_transition_stable(
    t: Transition,
    label: Seq<usize>,
    gs: Seq<GoalModel>,
    entry: (usize, usize),
    rules: Seq<RuleModel>,
    apma: bool,
    goal_sets: Seq<Seq<GoalModel>>,
    x: Seq<GoalModel>,
)
    requires
        transition_of(t, label, gs, entry, rules, apma, goal_sets),
        distinct_sets(goal_sets),
        !has_state(goal_sets, x),
        x.len() > 0,
    ensures
        transition_of(t, label, gs, entry, rules, apma, goal_sets.push(x)),
{
    let (outputs, dests) = choose|
        outputs: Seq<AnnouncementModel>,
        dests: Seq<(Seq<usize>, DestinationModel)>,
    |
        derived(label, gs, entry.0, entry.1, rules, apma, outputs, dests) && models(
            t.announcements@,
        ).to_multiset() == outputs.to_multiset() && resolved_view(t.destinations@) == resolved(
            dests,
            goal_sets,
        ) && drops_allowed(dests, goal_sets);
    lemma_resolved_stable(dests, goal_sets, x);
}

/// Adding a state keeps the goal sets of the earlier states.
proof fn lemma_state_goal_sets_push(states: Seq<State>, s: State)
    ensures
        state_goal_sets(states.push(s)) == state_goal_sets(states).push(goals_view(s.match_goals@)),
{
    assert(state_goal_sets(states.push(s)) =~= state_goal_sets(states).push(goals_view(s.match_goals@)));
}

/// Adding a state with new goals that can be labelled keeps the
/// transitions computed so far.
proof fn lemma_transitions_done_stable(
    transitions: Seq<Vec<Transition>>,
    states: Seq<State>,
    s: State,
    rules: Seq<RuleModel>,
    table: Seq<(usize, usize)>,
    apma: bool,
)
    requires
        transitions.len() <= states.len(),
        transitions_done(transitions, states, rules, table, apma),
        distinct_sets(state_goal_sets(states)),
        !has_state(state_goal_sets(states), goals_view(s.match_goals@)),
        goals_view(s.match_goals@).len() > 0,
        label_defined(goals_view(s.match_goals@)),
    ensures
        transitions_done(transitions, states.push(s), rules, table, apma),
{
    let g = state_goal_sets(states);
    let x = goals_view(s.match_goals@);
    lemma_state_goal_sets_push(states, s);
    assert forall|i: int| 0 <= i < transitions.len() implies (#[trigger] transitions[i])@.len() == table.len()
        && forall|j: int|
        0 <= j < table.len() ==> transition_of(
            #[trigger] transitions[i]@[j],
            states.push(s)[i].label@,
            state_goal_sets(states.push(s))[i],
            table[j],
            rules,
            apma,
            state_goal_sets(states.push(s)),
        ) by {
        assert(states.push(s)[i] == states[i]);
        assert(state_goal_sets(states.push(s))[i] == g[i]);
        assert forall|j: int| 0 <= j < table.len() implies transition_of(
            #[trigger] transitions[i]@[j],
            states.push(s)[i].label@,
            state_goal_sets(states.push(s))[i],
            table[j],
            rules,
            apma,
            state_goal_sets(states.push(s)),
        ) by {
            lemma_transition_stable(transitions[i]@[j], states[i].label@, g[i], table[j], rules, apma, g, x);
        }
    }
}

/// Some transition of `ts` leads to state `i`.
pub open spec fn leads_to(ts: Seq<Transition>, i: int) -> bool {
    exists|jj: int, kk: int|
        0 <= jj < ts.len() && 0 <= kk < ts[jj].destinations@.len() && (#[trigger] ts[jj].destinations@[kk]).1 == i
}

/// Some destination of `ds` is state `i`.
pub open spec fn among_destinations(ds: Seq<(ExplicitPosition, usize)>, i: int) -> bool {
    exists|kk: int| 0 <= kk < ds.len() && (#[trigger] ds[kk]).1 == i
}

/// State `i` is reached by a transition of an earlier state: of a state whose
/// transitions are done (`done`), or of the state being explored (its
/// transitions so far `current` and the destinations so far `dests` of the
/// transition being derived).
pub open spec fn reached_at(
    done: Seq<Vec<Transition>>,
    current: Seq<Transition>,
    dests: Seq<(ExplicitPosition, usize)>,
    i: int,
) -> bool {
    ||| exists|src: int| 0 <= src < i && src < done.len() && leads_to(#[trigger] done[src]@, i)
    ||| done.len() < i && (leads_to(current, i) || among_destinations(dests, i))
}

/// Every state but the initial one, of the first `n`, is reached by a
/// transition of an earlier state.
pub open spec fn reached_so_far(
    n: int,
    done: Seq<Vec<Transition>>,
    current: Seq<Transition>,
    dests: Seq<(ExplicitPosition, usize)>,
) -> bool {
    forall|i: int| 1 <= i < n ==> #[trigger] reached_at(done, current, dests, i)
}

/// State `i` is reached by a transition of an earlier state.
pub open spec fn state_reached(states: Seq<State>, i: int) -> bool {
    exists|src: int| 0 <= src < i && leads_to(#[trigger] states[src].transitions@, i)
}

/// Every state but the initial one is reached by a transition of an earlier
/// state, so every state is reachable from the initial state.
pub open spec fn states_reached(states: Seq<State>) -> bool {
    forall|i: int| 1 <= i < states.len() ==> #[trigger] state_reached(states, i)
}

proof fn lemma_reached_destination(
    n: int,
    done: Seq<Vec<Transition>>,
    current: Seq<Transition>,
    dests: Seq<(ExplicitPosition, usize)>,
    d: (ExplicitPosition, usize),
)
    requires
        reached_so_far(n, done, current, dests),
        done.len() < n,
        d.1 <= n,
    ensures
        reached_so_far(if d.1 == n { n + 1 } else { n }, done, current, dests.push(d)),
{
    let ds = dests.push(d);
    let n2 = if d.1 == n { n + 1 } else { n };
    assert forall|i: int| among_destinations(dests, i) implies among_destinations(ds, i) by {
        let kk = choose|kk: int| 0 <= kk < dests.len() && (#[trigger] dests[kk]).1 == i;
        assert(ds[kk] == dests[kk]);
    }
    assert forall|i: int| 1 <= i < n2 implies #[trigger] reached_at(done, current, ds, i) by {
        if i < n {
            assert(reached_at(done, current, dests, i));
        } else {
            assert(ds[dests.len() as int] == d);
            assert(among_destinations(ds, i));
            let src = done.len() as int;
            assert(0 <= src < i);
        }
    }
}

proof fn lemma_reached_transition(
    n: int,
    done: Seq<Vec<Transition>>,
    current: Seq<Transition>,
    tr: Transition,
)
    requires
        reached_so_far(n, done, current, tr.destinations@),
    ensures
        reached_so_far(n, done, current.push(tr), Seq::empty()),
{
    let c2 = current.push(tr);
    assert forall|i: int| 1 <= i < n implies #[trigger] reached_at(done, c2, Seq::empty(), i) by {
        assert(reached_at(done, current, tr.destinations@, i));
        if done.len() < i {
            if leads_to(current, i) {
                let (jj, kk) = choose|jj: int, kk: int|
                    0 <= jj < current.len() && 0 <= kk < current[jj].destinations@.len() && (
                    #[trigger] current[jj].destinations@[kk]).1 == i;
                assert(c2[jj] == current[jj]);
                assert(c2[jj].destinations@[kk].1 == i);
                assert(leads_to(c2, i));
            } else if among_destinations(tr.destinations@, i) {
                let kk = choose|kk: int| 0 <= kk < tr.destinations@.len() && (#[trigger] tr.destinations@[kk]).1 == i;
                assert(c2[current.len() as int] == tr);
                assert(c2[current.len() as int].destinations@[kk].1 == i);
                assert(leads_to(c2, i));
            }
        }
    }
}

proof fn lemma_reached_state_done(n: int, done: Seq<Vec<Transition>>, current: Vec<Transition>)
    requires
        reached_so_far(n, done, current@, Seq::empty()),
    ensures
        reached_so_far(n, done.push(current), Seq::empty(), Seq::empty()),
{
    let d2 = done.push(current);
    assert forall|i: int| 1 <= i < n implies #[trigger] reached_at(d2, Seq::empty(), Seq::empty(), i) by {
        assert(reached_at(done, current@, Seq::empty(), i));
        if exists|src: int| 0 <= src < i && src < done.len() && leads_to(#[trigger] done[src]@, i) {
            let src = choose|src: int| 0 <= src < i && src < done.len() && leads_to(#[trigger] done[src]@, i);
            assert(d2[src] == done[src]);
            assert(leads_to(d2[src]@, i));
        } else {
            let src = done.len() as int;
            assert(d2[src] == current);
            assert(!among_destinations(Seq::<(ExplicitPosition, usize)>::empty(), i));
            assert(leads_to(d2[src]@, i));
        }
    }
}

impl SetAutomaton {
    /// Constructs the set automaton of the supported rules of the
    /// specification; with `apma` the automaton only announces matches at the
    /// root.
    pub fn new(spec: &RewriteSpecification, apma: bool) -> (result: SetAutomaton)
        requires
            rules_usable(rules_view(spec.rewrite_rules@)),
        ensures
            exists|table: Seq<(usize, usize)>, goal_sets: Seq<Seq<GoalModel>>|
                symbol_table_of(rules_terms(supported_rules(rules_view(spec.rewrite_rules@))), table)
                    && automaton_of(
                    result.states@,
                    goal_sets,
                    supported_rules(rules_view(spec.rewrite_rules@)),
                    table,
                    apma,
                ),
            states_reached(result.states@),
    {
        // Remove rules that we cannot deal with
        let supported = filter_supported(&spec.rewrite_rules);
        let ghost rs = rules_view(supported@);
        // Find the indices of all the function symbols.
        let symbols = symbol_table(&supported);
        let ghost table = symbols@;
        let number_of_symbols = symbols.len();
        proof {
            lemma_table_arities(rules_terms(rs), table);
        }

        // The initial state has a match goals for each pattern. For each pattern l there is a match goal
        // with one obligation l@ε and announcement l@ε.
        let root = ExplicitPosition::empty_pos();
        let match_goals = fresh_goals_exec(&supported, &root);
        proof {
            let gs = goals_view(match_goals@);
            assert forall|k: int| 0 <= k < gs.len() implies rs.contains(#[trigger] gs[k].announcement.rule) by {
                assert(gs[k].announcement.rule == rs[k]);
            }
        }
        let initial_state = State {
            label: ExplicitPosition::empty_pos(),
            transitions: Vec::with_capacity(number_of_symbols),
            match_goals,
        };
        let mut states: Vec<State> = Vec::new();
        states.push(initial_state);
        let mut all_transitions: Vec<Vec<Transition>> = Vec::new();
        let mut s_index: usize = 0;
        assert(state_goal_sets(states@)[0] == goals_view(states@[0].match_goals@));
        proof {
            lemma_rules_lhs_symbols(rs);
            lemma_fresh_goals_in_shape(rs, Seq::empty(), rules_terms(rs));
            lemma_fresh_root_layered(rs);
            assert(goals_view(match_goals@) == fresh_goals(rs, Seq::empty()));
        }
        assert(construction_invariant(states@, rs));

        // Pick a state to explore
        while s_index < states.len()
            invariant
                rs == rules_view(supported@),
                table == symbols@,
                symbol_table_of(rules_terms(rs), table),
                arities_consistent(rules_terms(rs)),
                arities_bounded(rules_terms(rs)),
                table.len() <= usize::MAX,
                forall|k: int| 0 <= k < rs.len() ==> symbols_from((#[trigger] rs[k]).lhs, rules_terms(rs)),
                forall|k: int| 0 <= k < rs.len() ==> rule_well_formed(#[trigger] rs[k]),
                forall|j: int| 0 <= j < table.len() ==> (#[trigger] table[j]).1 < usize::MAX - 1,
                construction_invariant(states@, rs),
                apma ==> forall|i: int| 0 <= i < states@.len() ==> all_root(#[trigger] state_goal_sets(states@)[i]),
                s_index <= states@.len(),
                all_transitions@.len() == s_index,
                transitions_done(all_transitions@, states@, rs, table, apma),
                reached_so_far(states@.len() as int, all_transitions@, Seq::empty(), Seq::empty()),
            decreases usize::MAX - s_index,
        {
            let ghost label = states@[s_index as int].label@;
            let ghost gs = state_goal_sets(states@)[s_index as int];
            assert(gs == goals_view(states@[s_index as int].match_goals@));
            let mut transitions: Vec<Transition> = Vec::new();
            let mut j: usize = 0;
            while j < symbols.len()
                invariant
                    rs == rules_view(supported@),
                    table == symbols@,
                    symbol_table_of(rules_terms(rs), table),
                    arities_consistent(rules_terms(rs)),
                    arities_bounded(rules_terms(rs)),
                    table.len() <= usize::MAX,
                    forall|k: int| 0 <= k < rs.len() ==> symbols_from((#[trigger] rs[k]).lhs, rules_terms(rs)),
                    forall|k: int| 0 <= k < rs.len() ==> rule_well_formed(#[trigger] rs[k]),
                    forall|jj: int| 0 <= jj < table.len() ==> (#[trigger] table[jj]).1 < usize::MAX - 1,
                    construction_invariant(states@, rs),
                    apma ==> forall|i: int| 0 <= i < states@.len() ==> all_root(#[trigger] state_goal_sets(states@)[i]),
                    s_index < states@.len(),
                    label == states@[s_index as int].label@,
                    gs == state_goal_sets(states@)[s_index as int],
                    all_transitions@.len() == s_index,
                    transitions_done(all_transitions@, states@, rs, table, apma),
                    reached_so_far(states@.len() as int, all_transitions@, transitions@, Seq::empty()),
                    j <= table.len(),
                    transitions@.len() == j,
                    forall|jj: int|
                        0 <= jj < j ==> transition_of(
                            #[trigger] transitions@[jj],
                            label,
                            gs,
                            table[jj],
                            rs,
                            apma,
                            state_goal_sets(states@),
                        ),
                decreases table.len() - j,
            {
                let (symbol, arity) = symbols[j];
                assert(table[j as int] == (symbol, arity));
                assert(gs == goals_view(states@[s_index as int].match_goals@));
                proof {
                    if symbol != 0 {
                        assert(goals_in_shape(gs, rules_terms(rs)));
                        lemma_derivative_defined(gs, label, rules_terms(rs), table, j as int);
                    }
                    assert(goals_layered(gs, label));
                    lemma_layered_no_goal_below(gs, label);
                }
                let (outputs, destinations) = states[s_index].derive_transition(symbol, arity, &supported, apma);
                let ghost outputs_model = announcements_view(outputs@);
                let ghost dests = models(destinations@);
                let ghost d = derivative_of(gs, label, symbol);
                proof {
                    assert(rules_of(gs, rs));
                    lemma_derivative_rules(gs, label, symbol, rs);
                    if symbol != 0 {
                        assert(outputs_model == goal_announcements(d.0));
                        let reduced = choose|reduced: Seq<GoalModel>|
                            obligations_sorted_from(d.2, reduced) && destinations_of(
                                d.1 + reduced,
                                label,
                                rs,
                                arity as nat,
                                apma,
                                dests,
                            );
                        assert(rules_of(reduced, rs)) by {
                            assert forall|k: int| 0 <= k < reduced.len() implies rs.contains(
                                #[trigger] reduced[k].announcement.rule,
                            ) by {
                                assert(reduced[k].announcement == d.2[k].announcement);
                            }
                        }
                        assert(rules_of(d.1 + reduced, rs)) by {
                            let ng = d.1 + reduced;
                            assert forall|k: int| 0 <= k < ng.len() implies rs.contains(
                                #[trigger] ng[k].announcement.rule,
                            ) by {
                                if k < d.1.len() {
                                    assert(ng[k] == d.1[k]);
                                } else {
                                    assert(ng[k] == reduced[k - d.1.len()]);
                                }
                            }
                        }
                        lemma_destinations_rules(d.1 + reduced, label, rs, arity as nat, apma, dests);
                        let ts = rules_terms(rs);
                        lemma_derivative_in_shape(gs, label, symbol, ts);
                        lemma_sorted_in_shape(d.2, reduced, ts);
                        assert(goals_in_shape(d.1 + reduced, ts)) by {
                            let ng = d.1 + reduced;
                            assert forall|k: int| 0 <= k < ng.len() implies goal_in_shape(#[trigger] ng[k], ts) by {
                                if k < d.1.len() {
                                    assert(ng[k] == d.1[k]);
                                } else {
                                    assert(ng[k] == reduced[k - d.1.len()]);
                                }
                            }
                        }
                        lemma_new_goals_not_below(gs, label, symbol, reduced);
                        lemma_destinations_in_shape(d.1 + reduced, label, rs, arity as nat, apma, dests, ts);
                        if apma {
                            assert(all_root(gs));
                            lemma_derivative_root(gs, label, symbol);
                            assert(all_root(d.1 + reduced)) by {
                                let ng = d.1 + reduced;
                                assert forall|k: int| 0 <= k < ng.len() implies is_root_goal(#[trigger] ng[k]) by {
                                    if k < d.1.len() {
                                        assert(ng[k] == d.1[k]);
                                    } else {
                                        assert(ng[k] == reduced[k - d.1.len()]);
                                        assert(reduced[k - d.1.len()].announcement == d.2[k - d.1.len()].announcement);
                                    }
                                }
                            }
                        }
                        lemma_destinations_label_defined(d.1 + reduced, label, rs, arity as nat, apma, dests, ts);
                        lemma_destinations_layered(gs, label, symbol, reduced, rs, arity as nat, apma, dests, ts);
                        assert forall|k: int| 0 <= k < outputs@.len() implies rs.contains(
                            #[trigger] outputs@[k]@.rule,
                        ) by {
                            assert(outputs_model[k] == outputs@[k]@);
                            assert(goal_announcements(d.0)[k] == d.0[k].announcement);
                            assert(rs.contains(d.0[k].announcement.rule));
                        }
                    } else {
                        assert(outputs@.len() == 0);
                        assert(destinations@.len() == 0);
                    }
                    assert(sorted_by_position(destinations@));
                    assert(forall|i: int, jj: int| 0 <= i < jj < dests.len() ==> !lex_lt(dests[jj].0, dests[i].0)) by {
                        assert forall|i: int, jj: int| 0 <= i < jj < dests.len() implies !lex_lt(dests[jj].0, dests[i].0) by {
                            assert(dests[i] == destinations@[i].model());
                            assert(dests[jj] == destinations@[jj].model());
                            assert(destinations@[i].model().0 == destinations@[i].key());
                            assert(destinations@[jj].model().0 == destinations@[jj].key());
                            assert(!lex_lt(destinations@[jj].key(), destinations@[i].key()));
                        }
                    }
                }

                // Associate an EnhancedMatchAnnouncement to every transition
                let compiled = compile_announcements(outputs, Ghost(rs));
                let announcements = sort_by_position(compiled);
                proof {
                    assert forall|i: int| 0 <= i < announcements@.len() implies is_compiled(
                        #[trigger] announcements@[i],
                    ) by {
                        let x = announcements@[i];
                        vstd::seq_lib::to_multiset_contains(announcements@, x);
                        vstd::seq_lib::to_multiset_contains(compiled@, x);
                        assert(announcements@.contains(x));
                        assert(compiled@.contains(x));
                        let c = choose|c: int| 0 <= c < compiled@.len() && compiled@[c] == x;
                    }
                    assert(models(announcements@).to_multiset() == outputs_model.to_multiset());
                }

                // For the destinations we convert the match goal destinations to states
                let mut dest_states: Vec<(ExplicitPosition, usize)> = Vec::new();
                let mut destinations = destinations;
                let ghost mut m: int = 0;
                assert(dests.take(0) =~= Seq::<(Seq<usize>, DestinationModel)>::empty());
                assert(resolved_view(dest_states@) =~= Seq::<(Seq<usize>, usize)>::empty());

                // Loop over the hypertransitions
                while destinations.len() > 0
                    invariant
                        rs == rules_view(supported@),
                        table == symbols@,
                        symbol_table_of(rules_terms(rs), table),
                        arities_consistent(rules_terms(rs)),
                        arities_bounded(rules_terms(rs)),
                        table.len() <= usize::MAX,
                        forall|k: int| 0 <= k < rs.len() ==> symbols_from((#[trigger] rs[k]).lhs, rules_terms(rs)),
                        construction_invariant(states@, rs),
                        apma ==> forall|i: int| 0 <= i < states@.len() ==> all_root(#[trigger] state_goal_sets(states@)[i]),
                        s_index < states@.len(),
                        label == states@[s_index as int].label@,
                        gs == state_goal_sets(states@)[s_index as int],
                        all_transitions@.len() == s_index,
                        transitions_done(all_transitions@, states@, rs, table, apma),
                        reached_so_far(states@.len() as int, all_transitions@, transitions@, dest_states@),
                        j < table.len(),
                        transitions@.len() == j,
                        forall|jj: int|
                            0 <= jj < j ==> transition_of(
                                #[trigger] transitions@[jj],
                                label,
                                gs,
                                table[jj],
                                rs,
                                apma,
                                state_goal_sets(states@),
                            ),
                        0 <= m <= dests.len(),
                        models(destinations@) == dests.skip(m),
                        resolved_view(dest_states@) == resolved(dests.take(m), state_goal_sets(states@)),
                        drops_allowed(dests.take(m), state_goal_sets(states@)),
                        forall|mm: int|
                            0 <= mm < dests.len() && (#[trigger] dests[mm]).1 is Goals ==> rules_of(
                                dests[mm].1->Goals_0,
                                rs,
                            ),
                        forall|mm: int|
                            0 <= mm < dests.len() && (#[trigger] dests[mm]).1 is Goals ==> goals_in_shape(
                                dests[mm].1->Goals_0,
                                rules_terms(rs),
                            ),
                        forall|mm: int|
                            0 <= mm < dests.len() && (#[trigger] dests[mm]).1 is Goals && dests[mm].1->Goals_0.len()
                                > 0 ==> label_defined(dests[mm].1->Goals_0),
                        apma ==> forall|mm: int|
                            0 <= mm < dests.len() && (#[trigger] dests[mm]).1 is Goals ==> all_root(
                                dests[mm].1->Goals_0,
                            ),
                        forall|mm: int|
                            0 <= mm < dests.len() && (#[trigger] dests[mm]).1 is Goals ==> layered_sets(
                                announcement_set(dests[mm].1->Goals_0),
                                obligation_set(dests[mm].1->Goals_0),
                            ),
                    decreases destinations@.len(),
                {
                    let ghost old_destinations = destinations@;
                    assert(models(old_destinations).len() == old_destinations.len());
                    assert(dests.skip(m)[0] == dests[m]);
                    let (pos, goals_or_initial) = destinations.remove(0);
                    assert(models(old_destinations)[0] == (pos@, goals_or_initial@));
                    let ghost entry = dests[m];
                    assert(entry == (pos@, goals_or_initial@));
                    assert(dests.take(m + 1).drop_last() =~= dests.take(m));
                    assert(dests.take(m + 1).last() == entry);
                    let ghost before_dest = resolved_view(dest_states@);
                    match goals_or_initial {
                        GoalsOrInitial::Goals(goals) => {
                            let ghost gl = goals_view(goals@);
                            match find_state(&states, &goals) {
                                Some(idx) => {
                                    // The destination state already exists
                                    proof {
                                        lemma_reached_destination(
                                            states@.len() as int,
                                            all_transitions@,
                                            transitions@,
                                            dest_states@,
                                            (pos, idx),
                                        );
                                    }
                                    dest_states.push((pos, idx));
                                    proof {
                                        let gsets = state_goal_sets(states@);
                                        assert(has_state(gsets, gl));
                                        let c = choose|i: int| 0 <= i < gsets.len() && same_goal_set(#[trigger] gsets[i], gl);
                                        if c != idx {
                                            if c < idx {
                                                assert(!same_goal_set(gsets[c], gsets[idx as int]));
                                            } else {
                                                assert(!same_goal_set(gsets[idx as int], gsets[c]));
                                            }
                                        }
                                        assert(resolved_view(dest_states@) =~= before_dest.push((pos@, idx)));
                                    }
                                },
                                None => {
                                    if goals.len() > 0 {
                                        // The destination state does not yet exist, create it
                                        let ghost old_states = states@;
                                        let ghost gsets = state_goal_sets(old_states);
                                        assert(rules_of(gl, rs));
                                        assert(goals_in_shape(gl, rules_terms(rs)));
                                        proof {
                                            lemma_first_root_goal_labelled(goals_view(goals@));
                                        }
                                        let new_state = State::new(goals, symbols.len());
                                        let ghost ns = new_state;
                                        let ghost old_len = states@.len() as int;
                                        states.push(new_state);
                                        let idx = states.len() - 1;
                                        proof {
                                            lemma_reached_destination(
                                                old_len,
                                                all_transitions@,
                                                transitions@,
                                                dest_states@,
                                                (pos, idx),
                                            );
                                        }
                                        dest_states.push((pos, idx));
                                        proof {
                                            let g2 = state_goal_sets(states@);
                                            lemma_state_goal_sets_push(old_states, ns);
                                            assert(g2 == gsets.push(gl));
                                            assert(states@ == old_states.push(ns));
                                            lemma_transitions_done_stable(all_transitions@, old_states, ns, rs, table, apma);
                                            assert forall|jj: int| 0 <= jj < j implies transition_of(
                                                #[trigger] transitions@[jj],
                                                label,
                                                gs,
                                                table[jj],
                                                rs,
                                                apma,
                                                g2,
                                            ) by {
                                                lemma_transition_stable(
                                                    transitions@[jj],
                                                    label,
                                                    gs,
                                                    table[jj],
                                                    rs,
                                                    apma,
                                                    gsets,
                                                    gl,
                                                );
                                            }
                                            lemma_resolved_stable(dests.take(m), gsets, gl);
                                            // The new state is the only one with these goals.
                                            assert(same_goal_set(g2[idx as int], gl));
                                            assert(has_state(g2, gl));
                                            let c = choose|i: int| 0 <= i < g2.len() && same_goal_set(#[trigger] g2[i], gl);
                                            if c != idx {
                                                assert(g2[c] == gsets[c]);
                                            }
                                            assert(resolved_view(dest_states@) =~= before_dest.push((pos@, idx)));
                                            // The construction invariant holds for the new state.
                                            assert forall|i: int| 1 <= i < states@.len() implies (#[trigger] g2[i]).len()
                                                > 0 && label_defined(g2[i]) && is_label_of(g2[i], states@[i].label@) by {
                                                if i < old_states.len() {
                                                    assert(g2[i] == gsets[i]);
                                                    assert(states@[i] == old_states[i]);
                                                }
                                            }
                                            assert forall|a: int, b: int| 0 <= a < b < g2.len() implies !same_goal_set(
                                                #[trigger] g2[a],
                                                #[trigger] g2[b],
                                            ) by {
                                                assert(g2[a] == gsets[a]);
                                                if b < gsets.len() {
                                                    assert(g2[b] == gsets[b]);
                                                } else if same_goal_set(g2[a], g2[b]) {
                                                    assert(same_goal_set(gsets[a], gl));
                                                }
                                            }
                                            assert forall|i: int| 0 <= i < states@.len() implies rules_of(
                                                #[trigger] g2[i],
                                                rs,
                                            ) by {
                                                if i < old_states.len() {
                                                    assert(g2[i] == gsets[i]);
                                                }
                                            }
                                            assert forall|i: int| 0 <= i < states@.len() implies goals_in_shape(
                                                #[trigger] g2[i],
                                                rules_terms(rs),
                                            ) by {
                                                if i < old_states.len() {
                                                    assert(g2[i] == gsets[i]);
                                                }
                                            }
                                            assert(goals_layered(gl, ns.label@)) by {
                                                let (kl, jl) = choose|kl: int, jl: int|
                                                    #![trigger gl[kl].obligations[jl]]
                                                    0 <= kl < gl.len() && is_root_goal(gl[kl]) && 0 <= jl
                                                        < gl[kl].obligations.len() && gl[kl].obligations[jl].position
                                                        == ns.label@;
                                                assert(obligation_set(gl).contains(ns.label@));
                                            }
                                            assert forall|i: int| 0 <= i < states@.len() implies goals_layered(
                                                #[trigger] g2[i],
                                                states@[i].label@,
                                            ) by {
                                                if i < old_states.len() {
                                                    assert(g2[i] == gsets[i]);
                                                    assert(states@[i] == old_states[i]);
                                                }
                                            }
                                            assert(g2[0] == gsets[0]);
                                            assert(states@[0] == old_states[0]);
                                            if apma {
                                                assert forall|i: int| 0 <= i < states@.len() implies all_root(
                                                    #[trigger] g2[i],
                                                ) by {
                                                    if i < old_states.len() {
                                                        assert(g2[i] == gsets[i]);
                                                    }
                                                }
                                            }
                                        }
                                    } else {
                                        proof {
                                            assert(resolved_view(dest_states@) =~= before_dest);
                                        }
                                    }
                                },
                            }
                        },
                        GoalsOrInitial::InitialState => {
                            // The transition is to the initial state
                            proof {
                                lemma_reached_destination(
                                    states@.len() as int,
                                    all_transitions@,
                                    transitions@,
                                    dest_states@,
                                    (pos, 0usize),
                                );
                            }
                            dest_states.push((pos, 0));
                            assert(resolved_view(dest_states@) =~= before_dest.push((pos@, 0usize)));
                        },
                    }
                    proof {
                        let gsets = state_goal_sets(states@);
                        assert forall|mm: int|
                            0 <= mm < dests.take(m + 1).len() && (#[trigger] dests.take(m + 1)[mm]).1 is Goals
                                && !has_state(gsets, dests.take(m + 1)[mm].1->Goals_0) implies dests.take(
                            m + 1,
                        )[mm].1->Goals_0.len() == 0 by {
                            if mm < m {
                                assert(dests.take(m + 1)[mm] == dests.take(m)[mm]);
                            }
                        }
                        assert forall|a: int| 0 <= a < destinations@.len() implies models(destinations@)[a]
                            == dests.skip(m + 1)[a] by {
                            assert(destinations@[a] == old_destinations[a + 1]);
                            assert(models(old_destinations)[a + 1] == dests.skip(m)[a + 1]);
                        }
                        assert(models(destinations@) =~= dests.skip(m + 1));
                        m = m + 1;
                    }
                }
                proof {
                    assert(m == dests.len()) by {
                        assert(dests.skip(m).len() == 0);
                    }
                    assert(dests.take(m) =~= dests);
                    lemma_resolved_sorted(dests, state_goal_sets(states@));
                }

                // Create transition
                let transition = Transition { symbol, announcements, destinations: dest_states };
                proof {
                    let gsets = state_goal_sets(states@);
                    assert(table[j as int] == (symbol, arity));
                    if symbol != 0 {
                        lemma_derivative_defined(gs, label, rules_terms(rs), table, j as int);
                    }
                    assert(derived(label, gs, symbol, arity, rs, apma, outputs_model, dests));
                    assert(models(transition.announcements@).to_multiset() == outputs_model.to_multiset());
                    assert(resolved_view(transition.destinations@) == resolved(dests, gsets));
                    assert(drops_allowed(dests, gsets));
                    assert(transition_of(transition, label, gs, table[j as int], rs, apma, gsets));
                }
                proof {
                    lemma_reached_transition(states@.len() as int, all_transitions@, transitions@, transition);
                }
                transitions.push(transition);
                j = j + 1;
            }
            proof {
                lemma_reached_state_done(states@.len() as int, all_transitions@, transitions);
            }
            all_transitions.push(transitions);
            proof {
                let gsets = state_goal_sets(states@);
                assert forall|i: int| 0 <= i < all_transitions@.len() implies (#[trigger] all_transitions@[i])@.len()
                    == table.len() && forall|jj: int|
                    0 <= jj < table.len() ==> transition_of(
                        #[trigger] all_transitions@[i]@[jj],
                        states@[i].label@,
                        gsets[i],
                        table[jj],
                        rs,
                        apma,
                        gsets,
                    ) by {
                    if i < s_index {
                    } else {
                        assert(all_transitions@[i] == transitions);
                    }
                }
            }
            s_index = s_index + 1;
        }

        // Clear the match goals since they are only for debugging purposes.
        let ghost final_states = states@;
        let ghost final_transitions = all_transitions@;
        let ghost gsets = state_goal_sets(final_states);
        let n = states.len();
        let mut states = states;
        let mut all_transitions = all_transitions;
        let mut result: Vec<State> = Vec::new();
        let ghost mut i: int = 0;
        while states.len() > 0
            invariant
                0 <= i <= n,
                n == final_states.len(),
                final_transitions.len() == n,
                states@ == final_states.skip(i),
                all_transitions@ == final_transitions.skip(i),
                result@.len() == i,
                forall|a: int|
                    0 <= a < i ==> (#[trigger] result@[a]).label == final_states[a].label
                        && result@[a].match_goals@.len() == 0 && result@[a].transitions == final_transitions[a],
            decreases states@.len(),
        {
            let ghost old_states = states@;
            let ghost old_transitions = all_transitions@;
            assert(final_states.skip(i)[0] == final_states[i]);
            assert(final_transitions.skip(i)[0] == final_transitions[i]);
            let state = states.remove(0);
            let transitions = all_transitions.remove(0);
            result.push(State { label: state.label, transitions, match_goals: Vec::new() });
            proof {
                assert(states@ =~= final_states.skip(i + 1));
                assert(all_transitions@ =~= final_transitions.skip(i + 1));
                i = i + 1;
            }
        }
        proof {
            assert(i == n) by {
                assert(final_states.skip(i).len() == 0);
            }
            let r = result@;
            assert forall|a: int|
                0 <= a < r.len() implies (#[trigger] r[a]).match_goals@.len() == 0 && r[a].transitions@.len()
                    == table.len() && forall|jj: int|
                    0 <= jj < table.len() ==> transition_of(
                        #[trigger] r[a].transitions@[jj],
                        r[a].label@,
                        gsets[a],
                        table[jj],
                        rs,
                        apma,
                        gsets,
                    ) by {
                assert(final_transitions[a]@.len() == table.len());
            }
            assert(automaton_of(r, gsets, rs, table, apma));
            assert(reached_so_far(n as int, final_transitions, Seq::empty(), Seq::empty()));
            assert forall|ii: int| 1 <= ii < r.len() implies #[trigger] state_reached(r, ii) by {
                assert(reached_at(final_transitions, Seq::empty(), Seq::empty(), ii));
                assert(!among_destinations(Seq::<(ExplicitPosition, usize)>::empty(), ii));
                let src = choose|src: int|
                    0 <= src < ii && src < final_transitions.len() && leads_to(#[trigger] final_transitions[src]@, ii);
                assert(r[src].transitions == final_transitions[src]);
                assert(leads_to(r[src].transitions@, ii));
            }
            assert(symbol_table_of(rules_terms(rs), table));
            assert(rs == supported_rules(rules_view(spec.rewrite_rules@)));
        }
        let automaton = SetAutomaton { states: result };
        assert(automaton.states@ == result@);
        assert(symbol_table_of(rules_terms(supported_rules(rules_view(spec.rewrite_rules@))), table) && automaton_of(
            automaton.states@,
            gsets,
            supported_rules(rules_view(spec.rewrite_rules@)),
            table,
            apma,
        ));
        automaton
    }
}

/// The arities in a symbol table are those of the terms.
proof fn lemma_table_arities(ts: Seq<Term>, table: Seq<(usize, usize)>)
    requires
        symbol_table_of(ts, table),
        table.len() <= usize::MAX,
        forall|f: usize, n: nat| occurs_in(ts, f, n) ==> n < usize::MAX - 1,
    ensures
        forall|j: int| 0 <= j < table.len() ==> (#[trigger] table[j]).1 < usize::MAX - 1,
{
    let occ = occurrences(ts);
    assert forall|j: int| 0 <= j < table.len() implies (#[trigger] table[j]).1 < usize::MAX - 1 by {
        if exists|n: nat| #[trigger] occ(j as usize, n) {
            let n = choose|n: nat| #[trigger] occ(j as usize, n);
            let f = j as usize;
            assert(f as int == j);
            assert(occ(f, n));
            assert(f < table.len() && table[f as int] == (f, n as usize));
            assert(occurs_in(ts, f, n));
        } else {
            assert(table[j] == (0usize, 0usize));
        }
    }
}


/// In an automaton that announces matches at the root only and that was
/// built without rules, the transitions of the initial state announce nothing
/// and lead nowhere.
pub proof fn lemma_no_rules_initial_state(
    states: Seq<State>,
    goal_sets: Seq<Seq<GoalModel>>,
    table: Seq<(usize, usize)>,
)
    requires
        automaton_of(states, goal_sets, Seq::empty(), table, true),
    ensures
        forall|j: int|
            0 <= j < states[0].transitions@.len() ==> (#[trigger] states[0].transitions@[j]).announcements@.len() == 0
                && states[0].transitions@[j].destinations@.len() == 0,
{
    broadcast use vstd::seq_lib::group_to_multiset_ensures;

    let rules = Seq::<RuleModel>::empty();
    assert(goal_sets[0] =~= Seq::<GoalModel>::empty());
    assert forall|j: int| 0 <= j < states[0].transitions@.len() implies (#[trigger] states[0].transitions@[j]).announcements@.len()
        == 0 && states[0].transitions@[j].destinations@.len() == 0 by {
        let t = states[0].transitions@[j];
        let label = states[0].label@;
        let gs = goal_sets[0];
        assert(transition_of(t, label, gs, table[j], rules, true, goal_sets));
        let entry = table[j];
        {
            let (outputs, dests) = choose|
                outputs: Seq<AnnouncementModel>,
                dests: Seq<(Seq<usize>, DestinationModel)>,
            |
                derived(label, gs, entry.0, entry.1, rules, true, outputs, dests) && models(
                    t.announcements@,
                ).to_multiset() == outputs.to_multiset() && resolved_view(t.destinations@) == resolved(
                    dests,
                    goal_sets,
                ) && drops_allowed(dests, goal_sets);
            if entry.0 != 0 {
                let d = derivative_of(gs, label, entry.0);
                assert(d.0.len() == 0 && d.1.len() == 0 && d.2.len() == 0);
                assert(outputs.len() == 0);
                let reduced = choose|reduced: Seq<GoalModel>|
                    obligations_sorted_from(d.2, reduced) && destinations_of(
                        d.1 + reduced,
                        label,
                        rules,
                        entry.1 as nat,
                        true,
                        dests,
                    );
                assert((d.1 + reduced).len() == 0);
                assert(dests.len() == 0);
            }
            assert(resolved(dests, goal_sets).len() == 0);
            assert(resolved_view(t.destinations@).len() == t.destinations@.len());
            assert(models(t.announcements@).len() == t.announcements@.len());
            assert(models(t.announcements@).to_multiset().len() == 0);
        }
    }
}

} // verus!
