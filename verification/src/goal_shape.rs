use vstd::prelude::*;

use crate::automaton::{
    all_root, is_root_goal, label_defined, all_variables, arities_consistent, argument_obligations, derivative_defined, derivative_of, destinations_of,
    first_related, fresh_for, fresh_goal, fresh_goals, occurrences, symbol_table_of,
    fresh_position, goal_reduced, head_is, initial_destinations, obligations_sorted_from, occurs_in,
    reduce_obligation, reduced_goal, reduced_obligations, relative_position, rule_terms, rules_terms,
    transition_destinations, unchanged_goal, DestinationModel, ObligationModel,
};
use crate::data::{data_arguments, is_data_application, is_data_variable, symbol_occurs};
use crate::match_goal::{
    common_prefix_of, goal_positions, goal_without_prefix, greatest_common_prefix_of, is_partition,
    lemma_goals_at_all_from, has_root_goal, partition_positions, goals_at, goals_at_all, GoalModel,
};
use crate::goal_layers::{lemma_gcp_above_fresh, no_goal_below};
use crate::position::{comparable, is_prefix, lex_lt};
use crate::rewrite_specification::RuleModel;
use crate::term::Term;

verus! {

/// Every symbol of `t` occurs in the terms `ts` with the same number of
/// arguments.
pub open spec fn symbols_from(t: Term, ts: Seq<Term>) -> bool {
    forall|f: usize, n: nat| #[trigger] symbol_occurs(t, f, n) ==> occurs_in(ts, f, n)
}

/// The obligations lie at pairwise disjoint positions: no position is a
/// prefix of another one.
pub open spec fn disjoint_obligations(os: Seq<ObligationModel>) -> bool {
    forall|i: int, j: int|
        0 <= i < os.len() && 0 <= j < os.len() && i != j ==> !comparable(
            #[trigger] os[i].position,
            #[trigger] os[j].position,
        )
}

/// A position that only passes through data arguments: it never selects
/// the function symbol of an application.
pub open spec fn data_position(p: Seq<usize>) -> bool {
    forall|i: int| 0 <= i < p.len() ==> #[trigger] p[i] >= 2
}

/// A goal in shape: it has an obligation, its obligations lie at disjoint
/// positions below the position of its announcement, all its positions
/// pass through data arguments only, and the symbols of the patterns of its
/// obligations occur in `ts`.
pub open spec fn goal_in_shape(g: GoalModel, ts: Seq<Term>) -> bool {
    &&& g.obligations.len() > 0
    &&& disjoint_obligations(g.obligations)
    &&& data_position(g.announcement.position)
    &&& forall|i: int|
        0 <= i < g.obligations.len() ==> symbols_from((#[trigger] g.obligations[i]).pattern, ts) && is_prefix(
            g.announcement.position,
            g.obligations[i].position,
        ) && data_position(g.obligations[i].position)
}

/// A prefix of a prefix is a prefix.
pub proof fn lemma_prefix_transitive(a: Seq<usize>, b: Seq<usize>, c: Seq<usize>)
    requires
        is_prefix(a, b),
        is_prefix(b, c),
    ensures
        is_prefix(a, c),
{
    assert(c.subrange(0, a.len() as int) =~= b.subrange(0, a.len() as int));
}

/// Every position is a prefix of itself.
pub proof fn lemma_prefix_reflexive(a: Seq<usize>)
    ensures
        is_prefix(a, a),
{
    assert(a.subrange(0, a.len() as int) =~= a);
}

/// All goals are in shape.
pub open spec fn goals_in_shape(gs: Seq<GoalModel>, ts: Seq<Term>) -> bool {
    forall|k: int| 0 <= k < gs.len() ==> goal_in_shape(#[trigger] gs[k], ts)
}

/// A position that is disjoint from `l` is disjoint from every position
/// below `l`.
pub proof fn lemma_disjoint_below(p: Seq<usize>, l: Seq<usize>, q: Seq<usize>)
    requires
        !comparable(p, l),
        is_prefix(l, q),
    ensures
        !comparable(p, q),
{
    if is_prefix(p, q) {
        if p.len() <= l.len() {
            assert(l.subrange(0, p.len() as int) =~= q.subrange(0, p.len() as int));
        } else {
            assert(p.subrange(0, l.len() as int) =~= q.subrange(0, l.len() as int));
        }
    }
    if is_prefix(q, p) {
        assert(p.subrange(0, l.len() as int) =~= q.subrange(0, l.len() as int));
    }
}

/// Every position is comparable with itself.
pub proof fn lemma_comparable_self(p: Seq<usize>)
    ensures
        comparable(p, p),
{
    assert(p.subrange(0, p.len() as int) =~= p);
}

/// The obligations for the arguments lie directly below the label, at
/// increasing indices, and their patterns are arguments that are not
/// variables.
pub proof fn lemma_argument_obligations(args: Seq<Term>, label: Seq<usize>)
    requires
        args.len() < usize::MAX,
    ensures
        argument_obligations(args, label).len() <= args.len(),
        (exists|i: int| 0 <= i < args.len() && !is_data_variable(#[trigger] args[i])) ==> argument_obligations(
            args,
            label,
        ).len() > 0,
        forall|j: int|
            0 <= j < argument_obligations(args, label).len() ==> {
                let o = #[trigger] argument_obligations(args, label)[j];
                &&& o.position.len() == label.len() + 1
                &&& is_prefix(label, o.position)
                &&& args.contains(o.pattern)
                &&& !is_data_variable(o.pattern)
                &&& 2 <= o.position.last() <= args.len() + 1
            },
        forall|j1: int, j2: int|
            0 <= j1 < j2 < argument_obligations(args, label).len() ==> (#[trigger] argument_obligations(
                args,
                label,
            )[j1]).position.last() < (#[trigger] argument_obligations(args, label)[j2]).position.last(),
    decreases args.len(),
{
    if args.len() > 0 {
        let rest = args.drop_last();
        lemma_argument_obligations(rest, label);
        let r = argument_obligations(rest, label);
        let all = argument_obligations(args, label);
        assert forall|j: int| 0 <= j < all.len() implies {
            let o = #[trigger] all[j];
            &&& o.position.len() == label.len() + 1
            &&& is_prefix(label, o.position)
            &&& args.contains(o.pattern)
            &&& !is_data_variable(o.pattern)
            &&& 2 <= o.position.last() <= args.len() + 1
        } by {
            if j < r.len() {
                assert(all[j] == r[j]);
                let o = r[j];
                let i = choose|i: int| 0 <= i < rest.len() && rest[i] == o.pattern;
                assert(args[i] == o.pattern);
            } else {
                let o = all[j];
                assert(o.position == label.push((args.len() + 1) as usize));
                assert(o.position.subrange(0, label.len() as int) =~= label);
                assert(args[args.len() - 1] == o.pattern);
            }
        }
        assert forall|j1: int, j2: int| 0 <= j1 < j2 < all.len() implies (#[trigger] all[j1]).position.last() < (
        #[trigger] all[j2]).position.last() by {
            if j2 < r.len() {
                assert(all[j1] == r[j1]);
                assert(all[j2] == r[j2]);
            } else {
                assert(all[j1] == r[j1]);
                assert(r[j1].position.last() <= rest.len() + 1);
                assert(all[j2].position == label.push((args.len() + 1) as usize));
            }
        }
        if exists|i: int| 0 <= i < args.len() && !is_data_variable(#[trigger] args[i]) {
            let i = choose|i: int| 0 <= i < args.len() && !is_data_variable(#[trigger] args[i]);
            if i < args.len() - 1 {
                assert(rest[i] == args[i]);
            }
        }
    }
}

/// Obligations directly below the label at different indices are disjoint.
pub proof fn lemma_children_disjoint(label: Seq<usize>, p: Seq<usize>, q: Seq<usize>)
    requires
        p.len() == label.len() + 1,
        q.len() == label.len() + 1,
        p.last() != q.last(),
    ensures
        !comparable(p, q),
{
    if is_prefix(p, q) {
        assert(q.subrange(0, p.len() as int) =~= q);
    }
    if is_prefix(q, p) {
        assert(p.subrange(0, q.len() as int) =~= p);
    }
}

/// The symbols of a data argument occur in the term.
pub proof fn lemma_argument_symbols(t: Term, a: Term, ts: Seq<Term>)
    requires
        data_arguments(t).contains(a),
        symbols_from(t, ts),
    ensures
        symbols_from(a, ts),
{
    let i = choose|i: int| 0 <= i < data_arguments(t).len() && data_arguments(t)[i] == a;
    assert(is_data_application(t));
    assert(t.args[i + 1] == a);
    assert forall|f: usize, n: nat| #[trigger] symbol_occurs(a, f, n) implies occurs_in(ts, f, n) by {
        assert(t.args.len() > 0);
        assert(symbol_occurs(t.args[i + 1], f, n));
        assert(symbol_occurs(t, f, n));
    }
}

/// `o` comes from the obligations `os` when reading `f` at `label`: it is an
/// obligation of `os` that is not reduced, or it lies directly below the
/// label for a data argument (not a variable) of an obligation at the label
/// with head `f`.
pub open spec fn reduced_from(o: ObligationModel, os: Seq<ObligationModel>, label: Seq<usize>, f: usize) -> bool {
    ||| exists|i: int|
        0 <= i < os.len() && #[trigger] os[i] == o && !(head_is(os[i].pattern, f) && os[i].position == label)
    ||| exists|i: int|
        0 <= i < os.len() && (#[trigger] os[i]).position == label && head_is(os[i].pattern, f)
            && o.position.len() == label.len() + 1 && is_prefix(label, o.position) && o.position.last() >= 2
            && data_arguments(os[i].pattern).contains(o.pattern) && !is_data_variable(o.pattern)
}

/// Reading `f` at `label` keeps disjoint obligations disjoint; every new
/// obligation comes from the old ones, every obligation that is not reduced
/// remains, and an obligation with an argument that is not a variable leaves
/// an obligation.
pub proof fn lemma_reduced_obligations(os: Seq<ObligationModel>, label: Seq<usize>, f: usize)
    requires
        disjoint_obligations(os),
        forall|i: int| 0 <= i < os.len() ==> data_arguments((#[trigger] os[i]).pattern).len() < usize::MAX,
    ensures
        ({
            let r = reduced_obligations(os, label, f);
            &&& disjoint_obligations(r)
            &&& forall|j: int| 0 <= j < r.len() ==> reduced_from(#[trigger] r[j], os, label, f)
            &&& forall|i: int|
                0 <= i < os.len() && !(head_is((#[trigger] os[i]).pattern, f) && os[i].position == label)
                    ==> r.contains(os[i])
            &&& (exists|i: int|
                0 <= i < os.len() && (#[trigger] os[i]).position == label && head_is(os[i].pattern, f) && exists|
                    a: int,
                |
                    0 <= a < data_arguments(os[i].pattern).len() && !is_data_variable(
                        #[trigger] data_arguments(os[i].pattern)[a],
                    )) ==> r.len() > 0
        }),
    decreases os.len(),
{
    if os.len() > 0 {
        let rest = os.drop_last();
        let o = os.last();
        let last = os.len() - 1;
        assert forall|i: int| 0 <= i < rest.len() implies #[trigger] rest[i] == os[i] by {}
        assert(disjoint_obligations(rest)) by {
            assert forall|i: int, j: int|
                0 <= i < rest.len() && 0 <= j < rest.len() && i != j implies !comparable(
                #[trigger] rest[i].position,
                #[trigger] rest[j].position,
            ) by {
                assert(rest[i] == os[i] && rest[j] == os[j]);
            }
        }
        lemma_reduced_obligations(rest, label, f);
        let r1 = reduced_obligations(rest, label, f);
        let y = reduce_obligation(o, label, f);
        let r = reduced_obligations(os, label, f);
        assert(r == r1 + y);
        let reduced = head_is(o.pattern, f) && o.position == label;
        if reduced {
            lemma_argument_obligations(data_arguments(o.pattern), label);
        }
        // The new obligations come from the last one.
        assert forall|j: int| 0 <= j < y.len() implies reduced_from(#[trigger] y[j], os, label, f) by {
            if reduced {
                assert(os[last] == o);
            } else {
                assert(y[j] == o);
                assert(os[last] == o);
            }
        }
        assert forall|j: int| 0 <= j < r.len() implies reduced_from(#[trigger] r[j], os, label, f) by {
            if j < r1.len() {
                assert(r[j] == r1[j]);
                assert(reduced_from(r1[j], rest, label, f));
                if exists|i: int|
                    0 <= i < rest.len() && #[trigger] rest[i] == r1[j] && !(head_is(rest[i].pattern, f)
                        && rest[i].position == label) {
                    let i = choose|i: int|
                        0 <= i < rest.len() && #[trigger] rest[i] == r1[j] && !(head_is(rest[i].pattern, f)
                            && rest[i].position == label);
                    assert(os[i] == rest[i]);
                } else {
                    let i = choose|i: int|
                        0 <= i < rest.len() && (#[trigger] rest[i]).position == label && head_is(rest[i].pattern, f)
                            && r1[j].position.len() == label.len() + 1 && is_prefix(label, r1[j].position)
                            && data_arguments(rest[i].pattern).contains(r1[j].pattern) && !is_data_variable(
                            r1[j].pattern,
                        );
                    assert(os[i] == rest[i]);
                }
            } else {
                assert(r[j] == y[j - r1.len()]);
            }
        }
        // The obligations stay disjoint.
        assert forall|j1: int, j2: int|
            0 <= j1 < r.len() && 0 <= j2 < r.len() && j1 != j2 implies !comparable(
            #[trigger] r[j1].position,
            #[trigger] r[j2].position,
        ) by {
            if j1 < r1.len() && j2 < r1.len() {
                assert(r[j1] == r1[j1] && r[j2] == r1[j2]);
            } else if j1 >= r1.len() && j2 >= r1.len() {
                assert(r[j1] == y[j1 - r1.len()] && r[j2] == y[j2 - r1.len()]);
                if reduced {
                    let a = y[j1 - r1.len()];
                    let b = y[j2 - r1.len()];
                    if j1 < j2 {
                        assert(a.position.last() < b.position.last());
                    } else {
                        assert(b.position.last() < a.position.last());
                    }
                    lemma_children_disjoint(label, a.position, b.position);
                }
            } else {
                let (x, z) = if j1 < r1.len() {
                    (r1[j1], y[j2 - r1.len()])
                } else {
                    (r1[j2], y[j1 - r1.len()])
                };
                assert(r[j1] == x || r[j1] == z);
                assert(reduced_from(x, rest, label, f));
                if exists|i: int|
                    0 <= i < rest.len() && #[trigger] rest[i] == x && !(head_is(rest[i].pattern, f)
                        && rest[i].position == label) {
                    let i = choose|i: int|
                        0 <= i < rest.len() && #[trigger] rest[i] == x && !(head_is(rest[i].pattern, f)
                            && rest[i].position == label);
                    assert(os[i] == x);
                    assert(os[last] == o);
                    assert(!comparable(os[i].position, os[last].position));
                    if reduced {
                        lemma_disjoint_below(x.position, label, z.position);
                    } else {
                        assert(z == o);
                    }
                } else {
                    let i = choose|i: int|
                        0 <= i < rest.len() && (#[trigger] rest[i]).position == label && head_is(rest[i].pattern, f)
                            && x.position.len() == label.len() + 1 && is_prefix(label, x.position)
                            && data_arguments(rest[i].pattern).contains(x.pattern) && !is_data_variable(x.pattern);
                    assert(os[i] == rest[i]);
                    assert(os[last] == o);
                    assert(!comparable(os[i].position, os[last].position));
                    if reduced {
                        lemma_comparable_self(label);
                    } else {
                        assert(z == o);
                        lemma_disjoint_below(o.position, label, x.position);
                    }
                }
                if j1 < r1.len() {
                    assert(r[j1] == x && r[j2] == z);
                } else {
                    assert(r[j2] == x && r[j1] == z);
                }
            }
        }
        // The obligations that are not reduced remain.
        assert forall|i: int|
            0 <= i < os.len() && !(head_is((#[trigger] os[i]).pattern, f) && os[i].position == label) implies r.contains(
            os[i],
        ) by {
            if i < rest.len() {
                assert(rest[i] == os[i]);
                assert(r1.contains(os[i]));
                let j = choose|j: int| 0 <= j < r1.len() && r1[j] == os[i];
                assert(r[j] == r1[j]);
            } else {
                assert(y == seq![o]);
                assert(r[r1.len() as int] == o);
            }
        }
        // An argument that is not a variable leaves an obligation.
        if exists|i: int|
            0 <= i < os.len() && (#[trigger] os[i]).position == label && head_is(os[i].pattern, f) && exists|a: int|
                0 <= a < data_arguments(os[i].pattern).len() && !is_data_variable(
                    #[trigger] data_arguments(os[i].pattern)[a],
                ) {
            let i = choose|i: int|
                0 <= i < os.len() && (#[trigger] os[i]).position == label && head_is(os[i].pattern, f) && exists|
                    a: int,
                |
                    0 <= a < data_arguments(os[i].pattern).len() && !is_data_variable(
                        #[trigger] data_arguments(os[i].pattern)[a],
                    );
            if i < rest.len() {
                assert(rest[i] == os[i]);
            } else {
                assert(os[i] == o);
                let a = choose|a: int|
                    0 <= a < data_arguments(o.pattern).len() && !is_data_variable(
                        #[trigger] data_arguments(o.pattern)[a],
                    );
                assert(y.len() > 0);
            }
        }
    }
}

/// The symbols of the terms occur with fewer than `usize::MAX - 1`
/// arguments.
pub open spec fn arities_bounded(ts: Seq<Term>) -> bool {
    forall|f: usize, n: nat| occurs_in(ts, f, n) ==> n < usize::MAX - 1
}

/// A pattern whose symbols occur in bounded terms has fewer than
/// `usize::MAX` data arguments.
pub proof fn lemma_pattern_arguments_bounded(t: Term, ts: Seq<Term>)
    requires
        symbols_from(t, ts),
        arities_bounded(ts),
    ensures
        data_arguments(t).len() < usize::MAX,
{
    if is_data_application(t) {
        assert(symbol_occurs(t, t.args[0].symbol, (t.args.len() - 1) as nat));
    }
}

/// Reducing a goal in shape gives a goal in shape.
pub proof fn lemma_reduced_goal_in_shape(g: GoalModel, label: Seq<usize>, f: usize, ts: Seq<Term>)
    requires
        goal_in_shape(g, ts),
        arities_bounded(ts),
        goal_reduced(g, label, f),
    ensures
        goal_in_shape(reduced_goal(g, label, f), ts),
{
    let os = g.obligations;
    assert forall|i: int| 0 <= i < os.len() implies data_arguments((#[trigger] os[i]).pattern).len() < usize::MAX by {
        lemma_pattern_arguments_bounded(os[i].pattern, ts);
    }
    lemma_reduced_obligations(os, label, f);
    let r = reduced_obligations(os, label, f);
    let a = g.announcement.position;
    assert forall|j: int| 0 <= j < r.len() implies symbols_from((#[trigger] r[j]).pattern, ts) && is_prefix(
        a,
        r[j].position,
    ) && data_position(r[j].position) by {
        assert(reduced_from(r[j], os, label, f));
        if !(exists|i: int|
            0 <= i < os.len() && #[trigger] os[i] == r[j] && !(head_is(os[i].pattern, f) && os[i].position == label)) {
            let i = choose|i: int|
                0 <= i < os.len() && (#[trigger] os[i]).position == label && head_is(os[i].pattern, f)
                    && r[j].position.len() == label.len() + 1 && is_prefix(label, r[j].position) && data_arguments(
                    os[i].pattern,
                ).contains(r[j].pattern) && !is_data_variable(r[j].pattern);
            lemma_argument_symbols(os[i].pattern, r[j].pattern, ts);
            lemma_prefix_transitive(a, label, r[j].position);
            assert(data_position(label));
            assert forall|x: int| 0 <= x < r[j].position.len() implies #[trigger] r[j].position[x] >= 2 by {
                if x < label.len() {
                    assert(r[j].position[x] == r[j].position.subrange(0, label.len() as int)[x]);
                }
            }
        } else {
            let i = choose|i: int|
                0 <= i < os.len() && #[trigger] os[i] == r[j] && !(head_is(os[i].pattern, f) && os[i].position == label);
        }
    }
    // A reduced goal keeps an obligation.
    let j = choose|j: int| 0 <= j < os.len() && (#[trigger] os[j]).position == label;
    assert(head_is(os[j].pattern, f));
    if os.len() >= 2 {
        let k = if j == 0 {
            1int
        } else {
            0int
        };
        assert(!comparable(os[k].position, os[j].position));
        if os[k].position == label {
            lemma_comparable_self(label);
        }
        assert(r.contains(os[k]));
    } else {
        assert(j == 0);
        assert(!all_variables(data_arguments(os[0].pattern)));
        let a = choose|a: int|
            0 <= a < data_arguments(os[0].pattern).len() && !is_data_variable(#[trigger] data_arguments(os[0].pattern)[a]);
        assert(os[0].position == label && head_is(os[0].pattern, f));
    }
}

/// The goals that a derivative keeps or reduces are in shape.
pub proof fn lemma_derivative_in_shape(gs: Seq<GoalModel>, label: Seq<usize>, f: usize, ts: Seq<Term>)
    requires
        goals_in_shape(gs, ts),
        arities_bounded(ts),
    ensures
        goals_in_shape(derivative_of(gs, label, f).1, ts),
        goals_in_shape(derivative_of(gs, label, f).2, ts),
    decreases gs.len(),
{
    if gs.len() > 0 {
        let rest = gs.drop_last();
        assert(goals_in_shape(rest, ts)) by {
            assert forall|k: int| 0 <= k < rest.len() implies goal_in_shape(#[trigger] rest[k], ts) by {
                assert(rest[k] == gs[k]);
            }
        }
        lemma_derivative_in_shape(rest, label, f, ts);
        let g = gs.last();
        assert(goal_in_shape(g, ts));
        let d = derivative_of(gs, label, f);
        let r = derivative_of(rest, label, f);
        assert forall|k: int| 0 <= k < d.1.len() implies goal_in_shape(#[trigger] d.1[k], ts) by {
            if k < r.1.len() {
                assert(d.1[k] == r.1[k]);
            } else {
                assert(d.1[k] == unchanged_goal(g));
                assert(unchanged_goal(g).obligations == g.obligations);
            }
        }
        assert forall|k: int| 0 <= k < d.2.len() implies goal_in_shape(#[trigger] d.2[k], ts) by {
            if k < r.2.len() {
                assert(d.2[k] == r.2[k]);
            } else {
                assert(d.2[k] == reduced_goal(g, label, f));
                lemma_reduced_goal_in_shape(g, label, f, ts);
            }
        }
    }
}

/// The goals that a derivative keeps or reduces stay announced where they
/// were: at the root when all goals are.
pub proof fn lemma_derivative_root(gs: Seq<GoalModel>, label: Seq<usize>, f: usize)
    requires
        all_root(gs),
    ensures
        all_root(derivative_of(gs, label, f).0),
        all_root(derivative_of(gs, label, f).1),
        all_root(derivative_of(gs, label, f).2),
    decreases gs.len(),
{
    if gs.len() > 0 {
        let rest = gs.drop_last();
        assert(all_root(rest)) by {
            assert forall|k: int| 0 <= k < rest.len() implies is_root_goal(#[trigger] rest[k]) by {
                assert(rest[k] == gs[k]);
            }
        }
        lemma_derivative_root(rest, label, f);
        let g = gs.last();
        assert(is_root_goal(gs[gs.len() - 1]));
        let d = derivative_of(gs, label, f);
        let r = derivative_of(rest, label, f);
        assert forall|k: int| 0 <= k < d.0.len() implies is_root_goal(#[trigger] d.0[k]) by {
            if k < r.0.len() {
                assert(d.0[k] == r.0[k]);
            } else {
                assert(d.0[k] == g);
            }
        }
        assert forall|k: int| 0 <= k < d.1.len() implies is_root_goal(#[trigger] d.1[k]) by {
            if k < r.1.len() {
                assert(d.1[k] == r.1[k]);
            } else {
                assert(d.1[k] == unchanged_goal(g));
            }
        }
        assert forall|k: int| 0 <= k < d.2.len() implies is_root_goal(#[trigger] d.2[k]) by {
            if k < r.2.len() {
                assert(d.2[k] == r.2[k]);
            } else {
                assert(d.2[k] == reduced_goal(g, label, f));
            }
        }
    }
}

/// Two different indices with the same element make it count twice.
proof fn lemma_count_two<A>(s: Seq<A>, i: int, j: int)
    requires
        0 <= i < s.len(),
        0 <= j < s.len(),
        i != j,
        s[i] == s[j],
    ensures
        s.to_multiset().count(s[i]) >= 2,
{
    broadcast use vstd::seq_lib::group_to_multiset_ensures;

    let x = s[i];
    let t = s.remove(i);
    let k = if j < i {
        j
    } else {
        j - 1
    };
    assert(t[k] == x);
    assert(t.contains(x));
    s.to_multiset_ensures();
    t.to_multiset_ensures();
    assert(s.contains(x));
    assert(s.to_multiset().count(x) > 0);
    assert(t.to_multiset().count(x) > 0);
    assert(t.to_multiset() =~= s.to_multiset().remove(x));
    assert(t.to_multiset().count(x) == s.to_multiset().count(x) - 1);
}

/// An element that counts twice stands at two different indices.
proof fn lemma_two_indices<A>(s: Seq<A>, x: A)
    requires
        s.to_multiset().count(x) >= 2,
    ensures
        exists|i: int, j: int| 0 <= i < s.len() && 0 <= j < s.len() && i != j && s[i] == x && s[j] == x,
{
    broadcast use vstd::seq_lib::group_to_multiset_ensures;

    assert(s.contains(x));
    let i = choose|i: int| 0 <= i < s.len() && s[i] == x;
    let t = s.remove(i);
    assert(t.to_multiset() =~= s.to_multiset().remove(x));
    assert(t.to_multiset().count(x) >= 1);
    assert(t.contains(x));
    let k = choose|k: int| 0 <= k < t.len() && t[k] == x;
    let j = if k < i {
        k
    } else {
        k + 1
    };
    assert(s[j] == x);
}

/// The obligations of a permutation of a goal in shape are in shape.
pub proof fn lemma_permuted_in_shape(a: GoalModel, b: GoalModel, ts: Seq<Term>)
    requires
        goal_in_shape(a, ts),
        a.obligations.to_multiset() == b.obligations.to_multiset(),
        a.announcement.position == b.announcement.position,
    ensures
        goal_in_shape(b, ts),
{
    broadcast use vstd::seq_lib::group_to_multiset_ensures;

    let x = a.obligations;
    let y = b.obligations;
    x.to_multiset_ensures();
    y.to_multiset_ensures();
    assert(y.len() == x.len());
    assert forall|j: int| 0 <= j < y.len() implies symbols_from((#[trigger] y[j]).pattern, ts) && is_prefix(
        b.announcement.position,
        y[j].position,
    ) && data_position(y[j].position) by {
        assert(y.contains(y[j]));
        assert(y.to_multiset().count(y[j]) > 0);
        assert(x.to_multiset().count(y[j]) > 0);
        assert(x.contains(y[j]));
        let i = choose|i: int| 0 <= i < x.len() && x[i] == y[j];
    }
    assert forall|i: int, j: int|
        0 <= i < y.len() && 0 <= j < y.len() && i != j implies !comparable(
        #[trigger] y[i].position,
        #[trigger] y[j].position,
    ) by {
        if y[i] == y[j] {
            lemma_count_two(y, i, j);
            lemma_two_indices(x, y[i]);
            let (i2, j2) = choose|i2: int, j2: int|
                0 <= i2 < x.len() && 0 <= j2 < x.len() && i2 != j2 && x[i2] == y[i] && x[j2] == y[i];
            assert(!comparable(x[i2].position, x[j2].position));
            lemma_comparable_self(y[i].position);
        } else {
            assert(y.contains(y[i]) && y.contains(y[j]));
            assert(y.to_multiset().count(y[i]) > 0 && y.to_multiset().count(y[j]) > 0);
            assert(x.to_multiset().count(y[i]) > 0 && x.to_multiset().count(y[j]) > 0);
            assert(x.contains(y[i]) && x.contains(y[j]));
            let i2 = choose|i2: int| 0 <= i2 < x.len() && x[i2] == y[i];
            let j2 = choose|j2: int| 0 <= j2 < x.len() && x[j2] == y[j];
            assert(!comparable(x[i2].position, x[j2].position));
        }
    }
}

/// Sorting the obligations keeps the goals in shape.
pub proof fn lemma_sorted_in_shape(a: Seq<GoalModel>, b: Seq<GoalModel>, ts: Seq<Term>)
    requires
        goals_in_shape(a, ts),
        obligations_sorted_from(a, b),
    ensures
        goals_in_shape(b, ts),
{
    assert forall|k: int| 0 <= k < b.len() implies goal_in_shape(#[trigger] b[k], ts) by {
        lemma_permuted_in_shape(a[k], b[k], ts);
    }
}

/// The symbols of the left hand side of every rule occur in the terms of
/// the rules.
pub proof fn lemma_rules_lhs_symbols(rs: Seq<RuleModel>)
    ensures
        forall|k: int| 0 <= k < rs.len() ==> symbols_from((#[trigger] rs[k]).lhs, rules_terms(rs)),
    decreases rs.len(),
{
    if rs.len() > 0 {
        let rest = rs.drop_last();
        lemma_rules_lhs_symbols(rest);
        let ts = rules_terms(rs);
        let a = rules_terms(rest);
        assert(ts == a + rule_terms(rs.last()));
        assert forall|k: int| 0 <= k < rs.len() implies symbols_from((#[trigger] rs[k]).lhs, ts) by {
            assert forall|f: usize, n: nat| #[trigger] symbol_occurs(rs[k].lhs, f, n) implies occurs_in(ts, f, n) by {
                if k < rest.len() {
                    assert(rest[k] == rs[k]);
                    assert(occurs_in(a, f, n));
                    let i = choose|i: int| 0 <= i < a.len() && symbol_occurs(#[trigger] a[i], f, n);
                    assert(ts[i] == a[i]);
                } else {
                    assert(rule_terms(rs.last())[0] == rs.last().lhs);
                    assert(ts[a.len() as int] == rs[k].lhs);
                }
            }
        }
    }
}

/// The symbols of the right hand side of every rule occur in the terms of
/// the rules.
pub proof fn lemma_rules_rhs_symbols(rs: Seq<RuleModel>)
    ensures
        forall|k: int| 0 <= k < rs.len() ==> symbols_from((#[trigger] rs[k]).rhs, rules_terms(rs)),
    decreases rs.len(),
{
    if rs.len() > 0 {
        let rest = rs.drop_last();
        lemma_rules_rhs_symbols(rest);
        let ts = rules_terms(rs);
        let a = rules_terms(rest);
        assert(ts == a + rule_terms(rs.last()));
        assert forall|k: int| 0 <= k < rs.len() implies symbols_from((#[trigger] rs[k]).rhs, ts) by {
            assert forall|f: usize, n: nat| #[trigger] symbol_occurs(rs[k].rhs, f, n) implies occurs_in(ts, f, n) by {
                if k < rest.len() {
                    assert(rest[k] == rs[k]);
                    assert(occurs_in(a, f, n));
                    let i = choose|i: int| 0 <= i < a.len() && symbol_occurs(#[trigger] a[i], f, n);
                    assert(ts[i] == a[i]);
                } else {
                    assert(rule_terms(rs.last())[1] == rs.last().rhs);
                    assert(ts[a.len() + 1int] == rs[k].rhs);
                }
            }
        }
    }
}

/// Fresh goals are in shape when the symbols of the left hand sides occur in
/// the terms.
pub proof fn lemma_fresh_goals_in_shape(rs: Seq<RuleModel>, pos: Seq<usize>, ts: Seq<Term>)
    requires
        forall|k: int| 0 <= k < rs.len() ==> symbols_from((#[trigger] rs[k]).lhs, ts),
        data_position(pos),
    ensures
        goals_in_shape(fresh_goals(rs, pos), ts),
{
    assert forall|k: int| 0 <= k < fresh_goals(rs, pos).len() implies goal_in_shape(#[trigger] fresh_goals(rs, pos)[k], ts) by {
        let g = fresh_goals(rs, pos)[k];
        assert(g == fresh_goal(rs[k], pos));
        assert(g.obligations[0].pattern == rs[k].lhs);
        lemma_prefix_reflexive(pos);
    }
}

/// The fresh goals that join a partition are in shape.
proof fn lemma_fresh_for_in_shape(
    parts: Seq<(Seq<GoalModel>, Seq<Seq<usize>>)>,
    gcps: Seq<Seq<usize>>,
    label: Seq<usize>,
    rs: Seq<RuleModel>,
    i: int,
    c: nat,
    ts: Seq<Term>,
)
    requires
        forall|k: int| 0 <= k < rs.len() ==> symbols_from((#[trigger] rs[k]).lhs, ts),
        data_position(label),
        c < usize::MAX,
        forall|c2: nat|
            1 <= c2 <= c && first_related(parts, #[trigger] fresh_position(label, c2), i) ==> gcps[i].len()
                <= label.len() + 1,
    ensures
        goals_in_shape(fresh_for(parts, gcps, label, rs, i, c), ts),
    decreases c,
{
    if c > 0 {
        lemma_fresh_for_in_shape(parts, gcps, label, rs, i, (c - 1) as nat, ts);
        let rest = fresh_for(parts, gcps, label, rs, i, (c - 1) as nat);
        let pos = fresh_position(label, c);
        if first_related(parts, pos, i) {
        assert(gcps[i].len() <= label.len() + 1);
        assert(pos.len() == label.len() + 1);
        assert(pos[label.len() as int] == (c + 1) as usize);
        assert forall|x: int| 0 <= x < relative_position(pos, gcps[i].len()).len() implies #[trigger] relative_position(
            pos,
            gcps[i].len(),
        )[x] >= 2 by {
            assert(relative_position(pos, gcps[i].len())[x] == pos[x + gcps[i].len()]);
            if x + gcps[i].len() < label.len() {
                assert(pos[x + gcps[i].len()] == label[x + gcps[i].len()]);
            }
        }
        lemma_fresh_goals_in_shape(rs, relative_position(pos, gcps[i].len()), ts);
        }
        let fg = fresh_goals(rs, relative_position(pos, gcps[i].len()));
        let all = fresh_for(parts, gcps, label, rs, i, c);
        assert forall|k: int| 0 <= k < all.len() implies goal_in_shape(#[trigger] all[k], ts) by {
            if k < rest.len() {
                assert(all[k] == rest[k]);
            } else {
                assert(all[k] == fg[k - rest.len()]);
            }
        }
    }
}

/// Removing a common prefix keeps positions disjoint.
proof fn lemma_disjoint_without_prefix(p: Seq<usize>, q: Seq<usize>, c: Seq<usize>)
    requires
        is_prefix(c, p),
        is_prefix(c, q),
        !comparable(p, q),
    ensures
        !comparable(p.skip(c.len() as int), q.skip(c.len() as int)),
{
    let n = c.len() as int;
    let p1 = p.skip(n);
    let q1 = q.skip(n);
    assert(p =~= c + p1);
    assert(q =~= c + q1);
    if is_prefix(p1, q1) {
        assert(q.subrange(0, p.len() as int) =~= c + q1.subrange(0, p1.len() as int));
    }
    if is_prefix(q1, p1) {
        assert(p.subrange(0, q.len() as int) =~= c + p1.subrange(0, q1.len() as int));
    }
}

/// A goal in shape stays in shape when a common prefix of its positions is
/// removed.
proof fn lemma_goal_without_prefix_in_shape(g: GoalModel, c: Seq<usize>, ts: Seq<Term>)
    requires
        goal_in_shape(g, ts),
        forall|j: int| 0 <= j < goal_positions(g).len() ==> is_prefix(c, #[trigger] goal_positions(g)[j]),
    ensures
        goal_in_shape(goal_without_prefix(g, c.len()), ts),
{
    let h = goal_without_prefix(g, c.len());
    assert forall|i: int| 0 <= i < g.obligations.len() implies is_prefix(c, (#[trigger] g.obligations[i]).position) by {
        assert(goal_positions(g)[i + 1] == g.obligations[i].position);
    }
    assert(goal_positions(g)[0] == g.announcement.position);
    assert forall|i: int| 0 <= i < h.obligations.len() implies is_prefix(
        h.announcement.position,
        (#[trigger] h.obligations[i]).position,
    ) by {
        let p = g.announcement.position;
        let q = g.obligations[i].position;
        let n = c.len() as int;
        assert(is_prefix(p, q));
        assert(q.skip(n).subrange(0, p.skip(n).len() as int) =~= q.subrange(0, p.len() as int).skip(n));
    }
    assert forall|i: int, j: int|
        0 <= i < h.obligations.len() && 0 <= j < h.obligations.len() && i != j implies !comparable(
        #[trigger] h.obligations[i].position,
        #[trigger] h.obligations[j].position,
    ) by {
        lemma_disjoint_without_prefix(g.obligations[i].position, g.obligations[j].position, c);
    }
    assert forall|i: int| 0 <= i < h.obligations.len() implies symbols_from((#[trigger] h.obligations[i]).pattern, ts)
        && data_position(h.obligations[i].position) by {
        assert(h.obligations[i].pattern == g.obligations[i].pattern);
        let q = g.obligations[i].position;
        assert(data_position(q));
        assert forall|x: int| 0 <= x < q.skip(c.len() as int).len() implies #[trigger] q.skip(c.len() as int)[x] >= 2 by {
            assert(q.skip(c.len() as int)[x] == q[x + c.len()]);
        }
    }
}

/// The goals of every destination are in shape.
pub proof fn lemma_destinations_in_shape(
    new_goals: Seq<GoalModel>,
    label: Seq<usize>,
    rs: Seq<RuleModel>,
    arity: nat,
    apma: bool,
    dests: Seq<(Seq<usize>, DestinationModel)>,
    ts: Seq<Term>,
)
    requires
        goals_in_shape(new_goals, ts),
        destinations_of(new_goals, label, rs, arity, apma, dests),
        forall|k: int| 0 <= k < rs.len() ==> symbols_from((#[trigger] rs[k]).lhs, ts),
        data_position(label),
        no_goal_below(new_goals, label),
        arity < usize::MAX,
    ensures
        forall|m: int|
            0 <= m < dests.len() && (#[trigger] dests[m]).1 is Goals ==> goals_in_shape(dests[m].1->Goals_0, ts),
{
    if !apma {
        let (parts, gcps) = choose|parts: Seq<(Seq<GoalModel>, Seq<Seq<usize>>)>, gcps: Seq<Seq<usize>>|
            #![trigger is_partition(new_goals, parts), transition_destinations(parts, gcps, label, rs, arity)]
            is_partition(new_goals, parts) && gcps.len() == parts.len() && (forall|i: int|
                0 <= i < parts.len() ==> greatest_common_prefix_of(
                    (#[trigger] parts[i]).0,
                    gcps[i],
                )) && dests.to_multiset() == transition_destinations(
                parts,
                gcps,
                label,
                rs,
                arity,
            ).to_multiset();
        let td = transition_destinations(parts, gcps, label, rs, arity);
        crate::automaton::lemma_initial_destinations(parts, label, arity);
        assert forall|m: int| 0 <= m < dests.len() && (#[trigger] dests[m]).1 is Goals implies goals_in_shape(
            dests[m].1->Goals_0,
            ts,
        ) by {
            vstd::seq_lib::to_multiset_contains(dests, dests[m]);
            vstd::seq_lib::to_multiset_contains(td, dests[m]);
            assert(dests.contains(dests[m]));
            assert(td.contains(dests[m]));
            let i = choose|i: int| 0 <= i < td.len() && td[i] == dests[m];
            if i < parts.len() {
                assert forall|c2: nat|
                    1 <= c2 <= arity && first_related(parts, #[trigger] fresh_position(label, c2), i) implies gcps[i].len()
                        <= label.len() + 1 by {
                    let pos = fresh_position(label, c2);
                    assert(pos.subrange(0, label.len() as int) =~= label);
                    lemma_gcp_above_fresh(new_goals, parts, gcps[i], label, pos, i);
                }
                lemma_fresh_for_in_shape(parts, gcps, label, rs, i, arity, ts);
                let pg = parts[i].0;
                let a = crate::automaton::goals_without_prefix(pg, gcps[i].len());
                let b = fresh_for(parts, gcps, label, rs, i, arity);
                let gl = dests[m].1->Goals_0;
                assert(gl == a + b);
                assert(greatest_common_prefix_of(pg, gcps[i]));
                assert forall|k: int| 0 <= k < pg.len() implies goal_in_shape(#[trigger] pg[k], ts) by {
                    if has_root_goal(new_goals) {
                        assert(pg == new_goals);
                    } else {
                        lemma_goals_at_all_from(new_goals, parts[i].1);
                        assert(new_goals.contains(pg[k]));
                        let j = choose|j: int| 0 <= j < new_goals.len() && new_goals[j] == pg[k];
                    }
                }
                assert forall|k: int| 0 <= k < gl.len() implies goal_in_shape(#[trigger] gl[k], ts) by {
                    if k < a.len() {
                        assert(gl[k] == a[k]);
                        assert(a[k] == goal_without_prefix(pg[k], gcps[i].len()));
                        if pg.len() > 0 {
                            assert(common_prefix_of(pg, gcps[i]));
                        }
                        lemma_goal_without_prefix_in_shape(pg[k], gcps[i], ts);
                    } else {
                        assert(gl[k] == b[k - a.len()]);
                    }
                }
            } else {
                let init = initial_destinations(parts, label, arity);
                assert(td[i] == init[i - parts.len()]);
            }
        }
    }
}

/// The derivative of goals in shape is defined for every entry of the symbol
/// table of the terms: the patterns read with a symbol have as many arguments
/// as the symbol has in the table.
pub proof fn lemma_derivative_defined(
    gs: Seq<GoalModel>,
    label: Seq<usize>,
    ts: Seq<Term>,
    table: Seq<(usize, usize)>,
    j: int,
)
    requires
        goals_in_shape(gs, ts),
        symbol_table_of(ts, table),
        arities_consistent(ts),
        arities_bounded(ts),
        table.len() <= usize::MAX,
        0 <= j < table.len(),
        table[j].0 != 0,
    ensures
        derivative_defined(gs, label, table[j].0, table[j].1),
{
    let (symbol, arity) = table[j];
    let occ = occurrences(ts);
    assert(j as usize as int == j);
    if !(exists|n: nat| #[trigger] occ(j as usize, n)) {
        assert(table[j] == (0usize, 0usize));
    }
    let n0 = choose|n: nat| #[trigger] occ(j as usize, n);
    assert(occ(j as usize, n0));
    assert(occurs_in(ts, j as usize, n0));
    assert(n0 < usize::MAX - 1);
    assert(table[j as usize as int] == (j as usize, n0 as usize));
    assert(symbol == j && arity == n0);
    assert forall|k: int| 0 <= k < gs.len() implies (#[trigger] gs[k]).obligations.len() > 0 && (goal_reduced(
        gs[k],
        label,
        symbol,
    ) ==> forall|i: int|
        0 <= i < gs[k].obligations.len() && (#[trigger] gs[k].obligations[i]).position == label && head_is(
            gs[k].obligations[i].pattern,
            symbol,
        ) ==> data_arguments(gs[k].obligations[i].pattern).len() <= arity) by {
        assert(goal_in_shape(gs[k], ts));
        assert forall|i: int|
            0 <= i < gs[k].obligations.len() && (#[trigger] gs[k].obligations[i]).position == label && head_is(
                gs[k].obligations[i].pattern,
                symbol,
            ) implies data_arguments(gs[k].obligations[i].pattern).len() <= arity by {
            let p = gs[k].obligations[i].pattern;
            assert(symbols_from(p, ts));
            if is_data_application(p) {
                let n = (p.args.len() - 1) as nat;
                assert(symbol_occurs(p, symbol, n));
                assert(occurs_in(ts, symbol, n));
                assert(occ(j as usize, n0));
                assert(occurs_in(ts, symbol, n0));
            }
        }
    }
}


/// A proper prefix comes first in the lexicographic order.
pub proof fn lemma_prefix_lex(p: Seq<usize>, q: Seq<usize>)
    requires
        is_prefix(p, q),
        p != q,
    ensures
        lex_lt(p, q),
    decreases p.len(),
{
    if p.len() == 0 {
        if q.len() == 0 {
            assert(p =~= q);
        }
    } else {
        assert(q.len() > 0);
        assert(p[0] == q.subrange(0, p.len() as int)[0]);
        assert(q.drop_first().subrange(0, p.drop_first().len() as int) =~= q.subrange(0, p.len() as int).drop_first());
        if p.drop_first() == q.drop_first() {
            assert(p =~= seq![p[0]] + p.drop_first());
            assert(q =~= seq![q[0]] + q.drop_first());
        }
        lemma_prefix_lex(p.drop_first(), q.drop_first());
    }
}

/// The positions of every partition stand together in the positions of all
/// partitions.
pub proof fn lemma_partition_positions_index(parts: Seq<(Seq<GoalModel>, Seq<Seq<usize>>)>, i: int) -> (o: int)
    requires
        0 <= i < parts.len(),
    ensures
        0 <= o,
        o + parts[i].1.len() <= partition_positions(parts).len(),
        forall|j: int| 0 <= j < parts[i].1.len() ==> partition_positions(parts)[o + j] == #[trigger] parts[i].1[j],
    decreases parts.len(),
{
    let rest = parts.drop_last();
    let ps = partition_positions(parts);
    assert(ps == partition_positions(rest) + parts.last().1);
    if i < parts.len() - 1 {
        let o = lemma_partition_positions_index(rest, i);
        assert(rest[i] == parts[i]);
        assert forall|j: int| 0 <= j < parts[i].1.len() implies ps[o + j] == #[trigger] parts[i].1[j] by {
            assert(partition_positions(rest)[o + j] == rest[i].1[j]);
        }
        o
    } else {
        let o = partition_positions(rest).len() as int;
        assert forall|j: int| 0 <= j < parts[i].1.len() implies ps[o + j] == #[trigger] parts[i].1[j] by {}
        o
    }
}

/// The goals at some positions are announced at one of them, and every goal
/// announced at one of them is among them.
pub proof fn lemma_goals_at_all_positions(gs: Seq<GoalModel>, ps: Seq<Seq<usize>>)
    ensures
        forall|i: int|
            0 <= i < goals_at_all(gs, ps).len() ==> exists|j: int|
                0 <= j < ps.len() && ps[j] == (#[trigger] goals_at_all(gs, ps)[i]).announcement.position,
        forall|k: int, j: int|
            0 <= k < gs.len() && 0 <= j < ps.len() && (#[trigger] gs[k]).announcement.position == #[trigger] ps[j]
                ==> goals_at_all(gs, ps).contains(gs[k]),
    decreases ps.len(),
{
    if ps.len() > 0 {
        let rest = ps.drop_last();
        lemma_goals_at_all_positions(gs, rest);
        lemma_goals_at_positions(gs, ps.last());
        let a = goals_at_all(gs, rest);
        let b = goals_at(gs, ps.last());
        let all = goals_at_all(gs, ps);
        assert(all == a + b);
        assert forall|i: int| 0 <= i < all.len() implies exists|j: int|
            0 <= j < ps.len() && ps[j] == (#[trigger] all[i]).announcement.position by {
            if i < a.len() {
                assert(all[i] == a[i]);
                let j = choose|j: int| 0 <= j < rest.len() && rest[j] == a[i].announcement.position;
                assert(ps[j] == rest[j]);
            } else {
                assert(all[i] == b[i - a.len()]);
                assert(ps[ps.len() - 1] == ps.last());
            }
        }
        assert forall|k: int, j: int|
            0 <= k < gs.len() && 0 <= j < ps.len() && (#[trigger] gs[k]).announcement.position == #[trigger] ps[j]
                implies all.contains(gs[k]) by {
            if j < rest.len() {
                assert(rest[j] == ps[j]);
                assert(a.contains(gs[k]));
                let i = choose|i: int| 0 <= i < a.len() && a[i] == gs[k];
                assert(all[i] == a[i]);
            } else {
                assert(b.contains(gs[k]));
                let i = choose|i: int| 0 <= i < b.len() && b[i] == gs[k];
                assert(all[a.len() + i] == b[i]);
            }
        }
    }
}

/// The goals at a position are announced there, and every goal announced
/// there is among them.
proof fn lemma_goals_at_positions(gs: Seq<GoalModel>, p: Seq<usize>)
    ensures
        forall|i: int| 0 <= i < goals_at(gs, p).len() ==> (#[trigger] goals_at(gs, p)[i]).announcement.position == p,
        forall|k: int| 0 <= k < gs.len() && (#[trigger] gs[k]).announcement.position == p ==> goals_at(gs, p).contains(gs[k]),
    decreases gs.len(),
{
    if gs.len() > 0 {
        let rest = gs.drop_last();
        lemma_goals_at_positions(rest, p);
        let a = goals_at(rest, p);
        let all = goals_at(gs, p);
        assert forall|i: int| 0 <= i < all.len() implies (#[trigger] all[i]).announcement.position == p by {
            if i < a.len() {
                assert(all[i] == a[i]);
            }
        }
        assert forall|k: int| 0 <= k < gs.len() && (#[trigger] gs[k]).announcement.position == p implies all.contains(
            gs[k],
        ) by {
            if k < rest.len() {
                assert(rest[k] == gs[k]);
                assert(a.contains(gs[k]));
                let i = choose|i: int| 0 <= i < a.len() && a[i] == gs[k];
                assert(all[i] == a[i]);
            } else {
                assert(all[a.len() as int] == gs.last());
            }
        }
    }
}

/// The first position of a partition lies above all positions of its goals,
/// and some goal of the partition is announced there.
proof fn lemma_partition_top(
    gs: Seq<GoalModel>,
    parts: Seq<(Seq<GoalModel>, Seq<Seq<usize>>)>,
    i: int,
    ts: Seq<Term>,
)
    requires
        is_partition(gs, parts),
        !has_root_goal(gs),
        goals_in_shape(gs, ts),
        0 <= i < parts.len(),
    ensures
        common_prefix_of(parts[i].0, parts[i].1[0]),
        exists|k: int| 0 <= k < parts[i].0.len() && (#[trigger] parts[i].0[k]).announcement.position == parts[i].1[0],
{
    let pg = parts[i].0;
    let pp = parts[i].1;
    let ps = partition_positions(parts);
    let o = lemma_partition_positions_index(parts, i);
    lemma_goals_at_all_positions(gs, pp);
    lemma_goals_at_all_from(gs, pp);
    let top = pp[0];
    assert(ps[o] == top);
    assert(ps.contains(top));
    let k0 = choose|k: int| 0 <= k < gs.len() && (#[trigger] gs[k]).announcement.position == top;
    assert(gs[k0].announcement.position == pp[0]);
    assert(pg.contains(gs[k0]));
    let kk = choose|k: int| 0 <= k < pg.len() && pg[k] == gs[k0];
    assert(pg[kk].announcement.position == pp[0]);
    assert forall|k: int, jj: int|
        0 <= k < pg.len() && 0 <= jj < goal_positions(pg[k]).len() implies is_prefix(
        top,
        #[trigger] goal_positions(pg[k])[jj],
    ) by {
        let g = pg[k];
        let j = choose|j: int| 0 <= j < pp.len() && pp[j] == g.announcement.position;
        assert(is_prefix(top, g.announcement.position)) by {
            if j == 0 {
                lemma_prefix_reflexive(top);
            } else {
                assert(ps[o + j] == pp[j]);
                assert(lex_lt(ps[o], ps[o + j]));
                assert(comparable(pp[0], pp[j]));
                if !is_prefix(top, pp[j]) {
                    assert(is_prefix(pp[j], top));
                    if pp[j] == top {
                        crate::position::lemma_lex_irreflexive(top);
                    } else {
                        lemma_prefix_lex(pp[j], top);
                        crate::position::lemma_lex_asymmetric(top, pp[j]);
                    }
                }
            }
        }
        assert(gs.contains(g));
        let kg = choose|kg: int| 0 <= kg < gs.len() && gs[kg] == g;
        assert(goal_in_shape(gs[kg], ts));
        if jj == 0 {
            assert(goal_positions(g)[0] == g.announcement.position);
        } else {
            assert(goal_positions(g)[jj] == g.obligations[jj - 1].position);
            assert(is_prefix(g.announcement.position, g.obligations[jj - 1].position));
            lemma_prefix_transitive(top, g.announcement.position, g.obligations[jj - 1].position);
        }
    }
}

/// Without their greatest common prefix, the goals of a partition keep a
/// goal announced at the root.
proof fn lemma_partition_root_goal(
    gs: Seq<GoalModel>,
    parts: Seq<(Seq<GoalModel>, Seq<Seq<usize>>)>,
    gcp: Seq<usize>,
    i: int,
    ts: Seq<Term>,
)
    requires
        is_partition(gs, parts),
        goals_in_shape(gs, ts),
        0 <= i < parts.len(),
        greatest_common_prefix_of(parts[i].0, gcp),
    ensures
        exists|k: int|
            0 <= k < parts[i].0.len() && (#[trigger] goal_without_prefix(parts[i].0[k], gcp.len())).announcement.position.len()
                == 0,
{
    let pg = parts[i].0;
    if has_root_goal(gs) {
        let k = choose|k: int| 0 <= k < gs.len() && (#[trigger] gs[k]).announcement.position.len() == 0;
        assert(pg == gs);
        assert(common_prefix_of(pg, gcp));
        assert(goal_positions(pg[k])[0] == pg[k].announcement.position);
        assert(is_prefix(gcp, pg[k].announcement.position));
        assert(goal_without_prefix(pg[k], gcp.len()).announcement.position.len() == 0);
    } else {
        lemma_partition_top(gs, parts, i, ts);
        let top = parts[i].1[0];
        let k = choose|k: int| 0 <= k < pg.len() && (#[trigger] pg[k]).announcement.position == top;
        let first = pg[0].announcement.position;
        assert(goal_positions(pg[k])[0] == top);
        assert(is_prefix(gcp, top));
        assert(goal_positions(pg[0])[0] == first);
        assert(is_prefix(top, first));
        if gcp.len() < top.len() {
            let c = first.take(gcp.len() + 1int);
            assert(c =~= top.subrange(0, gcp.len() + 1int));
            assert(is_prefix(c, top));
            assert forall|kk: int, jj: int|
                0 <= kk < pg.len() && 0 <= jj < goal_positions(pg[kk]).len() implies is_prefix(
                c,
                #[trigger] goal_positions(pg[kk])[jj],
            ) by {
                lemma_prefix_transitive(c, top, goal_positions(pg[kk])[jj]);
            }
            assert(common_prefix_of(pg, c));
        }
        assert(gcp.len() == top.len());
        assert(goal_without_prefix(pg[k], gcp.len()).announcement.position.len() == 0);
    }
}

/// Every destination with goals can be labelled: some goal is announced at
/// its root, and every goal has an obligation.
pub proof fn lemma_destinations_label_defined(
    new_goals: Seq<GoalModel>,
    label: Seq<usize>,
    rs: Seq<RuleModel>,
    arity: nat,
    apma: bool,
    dests: Seq<(Seq<usize>, DestinationModel)>,
    ts: Seq<Term>,
)
    requires
        goals_in_shape(new_goals, ts),
        apma ==> all_root(new_goals),
        destinations_of(new_goals, label, rs, arity, apma, dests),
        forall|k: int| 0 <= k < rs.len() ==> symbols_from((#[trigger] rs[k]).lhs, ts),
        data_position(label),
        no_goal_below(new_goals, label),
        arity < usize::MAX,
    ensures
        forall|m: int|
            0 <= m < dests.len() && (#[trigger] dests[m]).1 is Goals && dests[m].1->Goals_0.len() > 0
                ==> label_defined(dests[m].1->Goals_0),
{
    lemma_destinations_in_shape(new_goals, label, rs, arity, apma, dests, ts);
    if apma {
        if new_goals.len() > 0 {
            assert(dests[0].1->Goals_0 == new_goals);
            assert(is_root_goal(new_goals[0]));
            assert(has_root_goal(new_goals));
        }
    } else {
        let (parts, gcps) = choose|parts: Seq<(Seq<GoalModel>, Seq<Seq<usize>>)>, gcps: Seq<Seq<usize>>|
            #![trigger is_partition(new_goals, parts), transition_destinations(parts, gcps, label, rs, arity)]
            is_partition(new_goals, parts) && gcps.len() == parts.len() && (forall|i: int|
                0 <= i < parts.len() ==> greatest_common_prefix_of(
                    (#[trigger] parts[i]).0,
                    gcps[i],
                )) && dests.to_multiset() == transition_destinations(
                parts,
                gcps,
                label,
                rs,
                arity,
            ).to_multiset();
        let td = transition_destinations(parts, gcps, label, rs, arity);
        crate::automaton::lemma_initial_destinations(parts, label, arity);
        assert forall|m: int|
            0 <= m < dests.len() && (#[trigger] dests[m]).1 is Goals && dests[m].1->Goals_0.len() > 0 implies label_defined(
            dests[m].1->Goals_0,
        ) by {
            vstd::seq_lib::to_multiset_contains(dests, dests[m]);
            vstd::seq_lib::to_multiset_contains(td, dests[m]);
            assert(dests.contains(dests[m]));
            assert(td.contains(dests[m]));
            let i = choose|i: int| 0 <= i < td.len() && td[i] == dests[m];
            let gl = dests[m].1->Goals_0;
            assert(goals_in_shape(gl, ts));
            if i < parts.len() {
                let a = crate::automaton::goals_without_prefix(parts[i].0, gcps[i].len());
                let b = fresh_for(parts, gcps, label, rs, i, arity);
                assert(gl == a + b);
                lemma_partition_root_goal(new_goals, parts, gcps[i], i, ts);
                let k = choose|k: int|
                    0 <= k < parts[i].0.len() && (#[trigger] goal_without_prefix(parts[i].0[k], gcps[i].len())).announcement.position.len()
                        == 0;
                assert(gl[k] == a[k]);
                assert(has_root_goal(gl));
            } else {
                let init = initial_destinations(parts, label, arity);
                assert(td[i] == init[i - parts.len()]);
            }
            assert forall|k: int| 0 <= k < gl.len() && is_root_goal(#[trigger] gl[k]) implies gl[k].obligations.len() > 0 by {
                assert(goal_in_shape(gl[k], ts));
            }
        }
    }
}

} // verus!
