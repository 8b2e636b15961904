use vstd::prelude::*;

use crate::goal_shape::{lemma_goals_at_all_positions,  lemma_partition_positions_index, lemma_prefix_transitive};
use crate::match_goal::{
    common_prefix_of, goal_positions, goal_without_prefix, greatest_common_prefix_of, lemma_goals_at_all_from, has_root_goal, is_partition, partition_positions,
    GoalModel,
};
use crate::automaton::{
    first_related, fresh_for, fresh_goal, fresh_goals, fresh_position, goals_without_prefix, initial_destinations,
    lemma_initial_destinations, relative_position, transition_destinations, destinations_of, DestinationModel,
    ObligationModel, derivative_of, goal_discarded, goal_reduced, goal_unchanged, head_is, obligations_sorted_from, reduced_goal,
    reduced_obligations, related, unchanged_goal,
};
use crate::data::data_arguments;
use crate::goal_shape::{
    arities_bounded, goal_in_shape, goals_in_shape, lemma_pattern_arguments_bounded, lemma_reduced_obligations,
    reduced_from,
};
use crate::rewrite_specification::RuleModel;
use crate::term::Term;
use crate::position::{comparable, is_prefix};

verus! {

/// `p` lies strictly below `q`.
pub open spec fn strictly_below(p: Seq<usize>, q: Seq<usize>) -> bool {
    is_prefix(q, p) && q.len() < p.len()
}

/// `p` is a child of `q`: it lies one index below it.
pub open spec fn is_child(q: Seq<usize>, p: Seq<usize>) -> bool {
    is_prefix(q, p) && p.len() == q.len() + 1
}

/// No goal is announced strictly below `p`.
pub open spec fn no_goal_below(gs: Seq<GoalModel>, p: Seq<usize>) -> bool {
    forall|k: int| 0 <= k < gs.len() ==> !strictly_below((#[trigger] gs[k]).announcement.position, p)
}

/// The positions at which the goals are announced.
pub open spec fn announcement_set(gs: Seq<GoalModel>) -> Set<Seq<usize>> {
    Set::new(|p: Seq<usize>| exists|k: int| 0 <= k < gs.len() && (#[trigger] gs[k]).announcement.position == p)
}

/// The positions of the obligations of the goals.
pub open spec fn obligation_set(gs: Seq<GoalModel>) -> Set<Seq<usize>> {
    Set::new(
        |p: Seq<usize>|
            exists|k: int, j: int|
                0 <= k < gs.len() && 0 <= j < gs[k].obligations.len() && (#[trigger] gs[k].obligations[j]).position
                    == p,
    )
}

/// No announcement position lies strictly below an obligation position, and
/// obligation positions are equal or disjoint.
pub open spec fn layered_sets(a: Set<Seq<usize>>, o: Set<Seq<usize>>) -> bool {
    &&& forall|p: Seq<usize>, q: Seq<usize>| a.contains(p) && o.contains(q) ==> !strictly_below(p, q)
    &&& forall|q1: Seq<usize>, q2: Seq<usize>|
        o.contains(q1) && o.contains(q2) && comparable(q1, q2) ==> q1 == q2
}

/// The goals of a state with label `label` are layered: no goal is announced
/// strictly below an obligation, obligations of the goals lie at equal or
/// disjoint positions, and (when there are goals) the label is the position
/// of an obligation.
pub open spec fn goals_layered(gs: Seq<GoalModel>, label: Seq<usize>) -> bool {
    &&& layered_sets(announcement_set(gs), obligation_set(gs))
    &&& gs.len() > 0 ==> obligation_set(gs).contains(label)
}

/// Layered goals are not announced strictly below the label.
pub proof fn lemma_layered_no_goal_below(gs: Seq<GoalModel>, label: Seq<usize>)
    requires
        goals_layered(gs, label),
    ensures
        no_goal_below(gs, label),
{
    assert forall|k: int| 0 <= k < gs.len() implies !strictly_below((#[trigger] gs[k]).announcement.position, label) by {
        assert(announcement_set(gs).contains(gs[k].announcement.position));
    }
}

/// Positions taken from layered positions, where obligations at `label` may
/// be replaced by children of `label` (an obligation position) and children
/// of `label` may be announced, are layered.
pub proof fn lemma_layered_below_label(
    a: Set<Seq<usize>>,
    o: Set<Seq<usize>>,
    label: Seq<usize>,
    a2: Set<Seq<usize>>,
    o2: Set<Seq<usize>>,
)
    requires
        layered_sets(a, o),
        o.contains(label),
        forall|p: Seq<usize>| #[trigger] a2.contains(p) ==> a.contains(p) || is_child(label, p),
        forall|q: Seq<usize>| #[trigger] o2.contains(q) ==> (o.contains(q) && q != label) || is_child(label, q),
    ensures
        layered_sets(a2, o2),
{
    assert forall|p: Seq<usize>, q: Seq<usize>| a2.contains(p) && o2.contains(q) implies !strictly_below(p, q) by {
        if strictly_below(p, q) {
            if is_child(label, q) {
                // p lies strictly below the label too.
                lemma_prefix_transitive(label, q, p);
                if a.contains(p) {
                    assert(!strictly_below(p, label));
                } else {
                    assert(is_child(label, p));
                }
            } else {
                assert(o.contains(q) && q != label);
                if a.contains(p) {
                    assert(!strictly_below(p, q));
                } else {
                    // q lies strictly above a child of the label, so above the label.
                    assert(is_child(label, p));
                    assert(q.len() <= label.len());
                    assert(label.subrange(0, q.len() as int) =~= p.subrange(0, q.len() as int));
                    assert(is_prefix(q, label));
                    assert(comparable(q, label));
                }
            }
        }
    }
    assert forall|q1: Seq<usize>, q2: Seq<usize>|
        o2.contains(q1) && o2.contains(q2) && comparable(q1, q2) implies q1 == q2 by {
        if o.contains(q1) && q1 != label && is_child(label, q2) {
            lemma_child_or_disjoint(o, label, q1, q2);
        } else if o.contains(q2) && q2 != label && is_child(label, q1) {
            lemma_child_or_disjoint(o, label, q2, q1);
        } else if is_child(label, q1) && is_child(label, q2) {
            if is_prefix(q1, q2) {
                assert(q2.subrange(0, q1.len() as int) =~= q2);
            } else {
                assert(q1.subrange(0, q2.len() as int) =~= q1);
            }
        }
    }
}

/// An obligation position other than the label is not comparable with a
/// child of the label.
proof fn lemma_child_or_disjoint(o: Set<Seq<usize>>, label: Seq<usize>, q1: Seq<usize>, q2: Seq<usize>)
    requires
        forall|q1: Seq<usize>, q2: Seq<usize>|
            o.contains(q1) && o.contains(q2) && comparable(q1, q2) ==> q1 == q2,
        o.contains(label),
        o.contains(q1),
        q1 != label,
        is_child(label, q2),
    ensures
        !comparable(q1, q2),
{
    if is_prefix(q1, q2) {
        if q1.len() <= label.len() {
            assert(label.subrange(0, q1.len() as int) =~= q2.subrange(0, q1.len() as int));
            assert(comparable(q1, label));
        } else {
            assert(q1.len() == q2.len());
            assert(q1 =~= q2.subrange(0, q1.len() as int));
            assert(q2.subrange(0, q2.len() as int) =~= q2);
            assert(q1.subrange(0, label.len() as int) =~= label);
            assert(comparable(label, q1));
        }
    }
    if is_prefix(q2, q1) {
        lemma_prefix_transitive(label, q2, q1);
        assert(comparable(label, q1));
    }
}

/// Layered positions stay layered when a common prefix is removed.
pub proof fn lemma_layered_skip(
    a: Set<Seq<usize>>,
    o: Set<Seq<usize>>,
    c: Seq<usize>,
    a2: Set<Seq<usize>>,
    o2: Set<Seq<usize>>,
)
    requires
        layered_sets(a, o),
        forall|p: Seq<usize>| #[trigger] a.contains(p) ==> is_prefix(c, p),
        forall|p: Seq<usize>| #[trigger] o.contains(p) ==> is_prefix(c, p),
        forall|p: Seq<usize>| #[trigger] a2.contains(p) ==> exists|x: Seq<usize>| a.contains(x) && x.skip(c.len() as int) == p,
        forall|p: Seq<usize>| #[trigger] o2.contains(p) ==> exists|x: Seq<usize>| o.contains(x) && x.skip(c.len() as int) == p,
    ensures
        layered_sets(a2, o2),
{
    let n = c.len() as int;
    assert forall|p: Seq<usize>, q: Seq<usize>| a2.contains(p) && o2.contains(q) implies !strictly_below(p, q) by {
        let x = choose|x: Seq<usize>| a.contains(x) && x.skip(n) == p;
        let y = choose|y: Seq<usize>| o.contains(y) && y.skip(n) == q;
        assert(is_prefix(c, x) && is_prefix(c, y));
        if strictly_below(p, q) {
            assert(x =~= c + p);
            assert(y =~= c + q);
            assert(x.subrange(0, y.len() as int) =~= c + p.subrange(0, q.len() as int));
            assert(strictly_below(x, y));
        }
    }
    assert forall|q1: Seq<usize>, q2: Seq<usize>|
        o2.contains(q1) && o2.contains(q2) && comparable(q1, q2) implies q1 == q2 by {
        let x = choose|x: Seq<usize>| o.contains(x) && x.skip(n) == q1;
        let y = choose|y: Seq<usize>| o.contains(y) && y.skip(n) == q2;
        assert(is_prefix(c, x) && is_prefix(c, y));
        assert(x =~= c + q1);
        assert(y =~= c + q2);
        if is_prefix(q1, q2) {
            assert(y.subrange(0, x.len() as int) =~= c + q2.subrange(0, q1.len() as int));
        } else {
            assert(x.subrange(0, y.len() as int) =~= c + q1.subrange(0, q2.len() as int));
        }
        assert(comparable(x, y));
    }
}

/// When no goal is announced strictly below the label, the greatest common
/// prefix of a partition lies above every child of the label that is
/// related to the partition.
pub proof fn lemma_gcp_above_fresh(
    gs: Seq<GoalModel>,
    parts: Seq<(Seq<GoalModel>, Seq<Seq<usize>>)>,
    gcp: Seq<usize>,
    label: Seq<usize>,
    pos: Seq<usize>,
    i: int,
)
    requires
        is_partition(gs, parts),
        0 <= i < parts.len(),
        greatest_common_prefix_of(parts[i].0, gcp),
        no_goal_below(gs, label),
        is_child(label, pos),
        related(parts[i].1, pos),
    ensures
        is_prefix(gcp, pos),
{
    let pg = parts[i].0;
    if has_root_goal(gs) {
        let k = choose|k: int| 0 <= k < gs.len() && (#[trigger] gs[k]).announcement.position.len() == 0;
        assert(pg == gs);
        assert(goal_positions(pg[k])[0] == pg[k].announcement.position);
        assert(is_prefix(gcp, pg[k].announcement.position));
        assert(gcp.len() == 0);
        assert(pos.subrange(0, 0) =~= gcp);
    } else {
        let pp = parts[i].1;
        let j = choose|j: int| 0 <= j < pp.len() && comparable(#[trigger] pp[j], pos);
        let ps = partition_positions(parts);
        let o = lemma_partition_positions_index(parts, i);
        assert(ps[o + j] == pp[j]);
        assert(ps.contains(pp[j]));
        let k = choose|k: int| 0 <= k < gs.len() && (#[trigger] gs[k]).announcement.position == pp[j];
        lemma_goals_at_all_positions(gs, pp);
        assert(gs[k].announcement.position == pp[j]);
        assert(pg.contains(gs[k]));
        let kk = choose|kk: int| 0 <= kk < pg.len() && pg[kk] == gs[k];
        assert(goal_positions(pg[kk])[0] == pp[j]);
        assert(common_prefix_of(pg, gcp));
        assert(is_prefix(gcp, pp[j]));
        if is_prefix(pp[j], pos) {
            lemma_prefix_transitive(gcp, pp[j], pos);
        } else {
            assert(is_prefix(pos, pp[j]));
            lemma_prefix_transitive(label, pos, pp[j]);
            assert(!strictly_below(gs[k].announcement.position, label));
            assert(pp[j].subrange(0, pos.len() as int) =~= pp[j]);
        }
    }
}

/// The goals that a derivative keeps or reduces are announced where goals
/// of `gs` are, and their obligations lie where obligations of `gs` other
/// than the label lie, or at children of the label.
pub proof fn lemma_derivative_positions(gs: Seq<GoalModel>, label: Seq<usize>, f: usize, ts: Seq<Term>)
    requires
        goals_in_shape(gs, ts),
        arities_bounded(ts),
    ensures
        forall|p: Seq<usize>| #[trigger] announcement_set(derivative_of(gs, label, f).1).contains(p) ==> announcement_set(gs).contains(p),
        forall|p: Seq<usize>| #[trigger] announcement_set(derivative_of(gs, label, f).2).contains(p) ==> announcement_set(gs).contains(p),
        forall|q: Seq<usize>|
            #[trigger] obligation_set(derivative_of(gs, label, f).1).contains(q) ==> (obligation_set(gs).contains(q)
                && q != label) || is_child(label, q),
        forall|q: Seq<usize>|
            #[trigger] obligation_set(derivative_of(gs, label, f).2).contains(q) ==> (obligation_set(gs).contains(q)
                && q != label) || is_child(label, q),
    decreases gs.len(),
{
    if gs.len() > 0 {
        let rest = gs.drop_last();
        let g = gs.last();
        let last = gs.len() - 1;
        assert(gs[last] == g);
        assert(goals_in_shape(rest, ts)) by {
            assert forall|k: int| 0 <= k < rest.len() implies goal_in_shape(#[trigger] rest[k], ts) by {
                assert(rest[k] == gs[k]);
            }
        }
        lemma_derivative_positions(rest, label, f, ts);
        let d = derivative_of(gs, label, f);
        let r = derivative_of(rest, label, f);
        assert forall|p: Seq<usize>| announcement_set(rest).contains(p) implies announcement_set(gs).contains(p) by {
            let k = choose|k: int| 0 <= k < rest.len() && (#[trigger] rest[k]).announcement.position == p;
            assert(gs[k] == rest[k]);
        }
        assert forall|q: Seq<usize>| obligation_set(rest).contains(q) implies obligation_set(gs).contains(q) by {
            let (k, j) = choose|k: int, j: int|
                0 <= k < rest.len() && 0 <= j < rest[k].obligations.len() && (#[trigger] rest[k].obligations[j]).position
                    == q;
            assert(gs[k] == rest[k]);
            assert(gs[k].obligations[j].position == q);
        }
        assert(announcement_set(gs).contains(g.announcement.position));
        // The goals kept unchanged.
        assert forall|p: Seq<usize>| #[trigger] announcement_set(d.1).contains(p) implies announcement_set(gs).contains(p) by {
            let k = choose|k: int| 0 <= k < d.1.len() && (#[trigger] d.1[k]).announcement.position == p;
            if k < r.1.len() {
                assert(d.1[k] == r.1[k]);
                assert(announcement_set(r.1).contains(p));
            } else {
                assert(d.1[k] == unchanged_goal(g));
            }
        }
        assert forall|q: Seq<usize>| #[trigger] obligation_set(d.1).contains(q) implies (obligation_set(gs).contains(q)
            && q != label) || is_child(label, q) by {
            let (k, j) = choose|k: int, j: int|
                0 <= k < d.1.len() && 0 <= j < d.1[k].obligations.len() && (#[trigger] d.1[k].obligations[j]).position
                    == q;
            if k < r.1.len() {
                assert(d.1[k] == r.1[k]);
                assert(obligation_set(r.1).contains(q));
            } else {
                assert(d.1[k] == unchanged_goal(g));
                assert(goal_unchanged(g, label));
                assert(g.obligations[j].position == q);
                assert(gs[last].obligations[j].position == q);
            }
        }
        // The reduced goals.
        assert forall|p: Seq<usize>| #[trigger] announcement_set(d.2).contains(p) implies announcement_set(gs).contains(p) by {
            let k = choose|k: int| 0 <= k < d.2.len() && (#[trigger] d.2[k]).announcement.position == p;
            if k < r.2.len() {
                assert(d.2[k] == r.2[k]);
                assert(announcement_set(r.2).contains(p));
            } else {
                assert(d.2[k] == reduced_goal(g, label, f));
            }
        }
        assert forall|q: Seq<usize>| #[trigger] obligation_set(d.2).contains(q) implies (obligation_set(gs).contains(q)
            && q != label) || is_child(label, q) by {
            let (k, j) = choose|k: int, j: int|
                0 <= k < d.2.len() && 0 <= j < d.2[k].obligations.len() && (#[trigger] d.2[k].obligations[j]).position
                    == q;
            if k < r.2.len() {
                assert(d.2[k] == r.2[k]);
                assert(obligation_set(r.2).contains(q));
            } else {
                assert(d.2[k] == reduced_goal(g, label, f));
                assert(goal_reduced(g, label, f));
                let os = g.obligations;
                assert(goal_in_shape(gs[last], ts));
                assert forall|i: int| 0 <= i < os.len() implies data_arguments((#[trigger] os[i]).pattern).len()
                    < usize::MAX by {
                    lemma_pattern_arguments_bounded(os[i].pattern, ts);
                }
                lemma_reduced_obligations(os, label, f);
                let rr = reduced_obligations(os, label, f);
                assert(reduced_from(rr[j], os, label, f));
                if exists|i: int|
                    0 <= i < os.len() && #[trigger] os[i] == rr[j] && !(head_is(os[i].pattern, f) && os[i].position
                        == label) {
                    let i = choose|i: int|
                        0 <= i < os.len() && #[trigger] os[i] == rr[j] && !(head_is(os[i].pattern, f) && os[i].position
                            == label);
                    assert(!goal_discarded(g, label, f));
                    assert(os[i].position != label);
                    assert(gs[last].obligations[i].position == q);
                }
            }
        }
    }
}

/// The goals after reading a symbol, with their reduced goals sorted, are
/// announced where goals of `gs` are, and their obligations lie where
/// obligations of `gs` other than the label lie, or at children of the label.
pub proof fn lemma_new_goals_positions(
    gs: Seq<GoalModel>,
    label: Seq<usize>,
    f: usize,
    reduced: Seq<GoalModel>,
    ts: Seq<Term>,
)
    requires
        goals_in_shape(gs, ts),
        arities_bounded(ts),
        obligations_sorted_from(derivative_of(gs, label, f).2, reduced),
    ensures
        forall|p: Seq<usize>|
            #[trigger] announcement_set(derivative_of(gs, label, f).1 + reduced).contains(p) ==> announcement_set(gs).contains(p),
        forall|q: Seq<usize>|
            #[trigger] obligation_set(derivative_of(gs, label, f).1 + reduced).contains(q) ==> (obligation_set(
                gs,
            ).contains(q) && q != label) || is_child(label, q),
{
    broadcast use vstd::seq_lib::group_to_multiset_ensures;

    let d = derivative_of(gs, label, f);
    let ng = d.1 + reduced;
    lemma_derivative_positions(gs, label, f, ts);
    assert forall|p: Seq<usize>| #[trigger] announcement_set(ng).contains(p) implies announcement_set(gs).contains(p) by {
        let k = choose|k: int| 0 <= k < ng.len() && (#[trigger] ng[k]).announcement.position == p;
        if k < d.1.len() {
            assert(ng[k] == d.1[k]);
            assert(announcement_set(d.1).contains(p));
        } else {
            let k2 = k - d.1.len();
            assert(ng[k] == reduced[k2]);
            assert(reduced[k2].announcement == d.2[k2].announcement);
            assert(announcement_set(d.2).contains(p));
        }
    }
    assert forall|q: Seq<usize>| #[trigger] obligation_set(ng).contains(q) implies (obligation_set(gs).contains(q)
        && q != label) || is_child(label, q) by {
        let (k, j) = choose|k: int, j: int|
            0 <= k < ng.len() && 0 <= j < ng[k].obligations.len() && (#[trigger] ng[k].obligations[j]).position == q;
        if k < d.1.len() {
            assert(ng[k] == d.1[k]);
            assert(obligation_set(d.1).contains(q));
        } else {
            let k2 = k - d.1.len();
            assert(ng[k] == reduced[k2]);
            let x = reduced[k2].obligations;
            let y = d.2[k2].obligations;
            x.to_multiset_ensures();
            y.to_multiset_ensures();
            assert(x.contains(x[j]));
            assert(x.to_multiset().count(x[j]) > 0);
            assert(y.to_multiset().count(x[j]) > 0);
            assert(y.contains(x[j]));
            let j2 = choose|j2: int| 0 <= j2 < y.len() && y[j2] == x[j];
            assert(d.2[k2].obligations[j2].position == q);
            assert(obligation_set(d.2).contains(q));
        }
    }
}

/// `p` is one of the first `c` fresh positions below the label that are
/// related first to partition `i`.
pub open spec fn fresh_at(parts: Seq<(Seq<GoalModel>, Seq<Seq<usize>>)>, label: Seq<usize>, i: int, c: nat, p: Seq<usize>) -> bool {
    exists|c2: nat| 1 <= c2 <= c && p == #[trigger] fresh_position(label, c2) && first_related(parts, p, i)
}

/// The fresh goals that join partition `i` are announced, with their one
/// obligation, at a fresh position relative to the greatest common prefix.
proof fn lemma_fresh_for_positions(
    parts: Seq<(Seq<GoalModel>, Seq<Seq<usize>>)>,
    gcps: Seq<Seq<usize>>,
    label: Seq<usize>,
    rs: Seq<RuleModel>,
    i: int,
    c: nat,
)
    ensures
        forall|k: int|
            0 <= k < fresh_for(parts, gcps, label, rs, i, c).len() ==> exists|p: Seq<usize>|
                fresh_at(parts, label, i, c, p) && (#[trigger] fresh_for(parts, gcps, label, rs, i, c)[k]).announcement.position
                    == relative_position(p, gcps[i].len()) && fresh_for(parts, gcps, label, rs, i, c)[k].obligations
                    == seq![
                    ObligationModel {
                        pattern: fresh_for(parts, gcps, label, rs, i, c)[k].obligations[0].pattern,
                        position: relative_position(p, gcps[i].len()),
                    },
                ],
    decreases c,
{
    if c > 0 {
        lemma_fresh_for_positions(parts, gcps, label, rs, i, (c - 1) as nat);
        let rest = fresh_for(parts, gcps, label, rs, i, (c - 1) as nat);
        let all = fresh_for(parts, gcps, label, rs, i, c);
        let pos = fresh_position(label, c);
        assert forall|k: int| 0 <= k < all.len() implies exists|p: Seq<usize>|
            fresh_at(parts, label, i, c, p) && (#[trigger] all[k]).announcement.position == relative_position(
                p,
                gcps[i].len(),
            ) && all[k].obligations == seq![
                ObligationModel { pattern: all[k].obligations[0].pattern, position: relative_position(p, gcps[i].len()) },
            ] by {
            if k < rest.len() {
                assert(all[k] == rest[k]);
                let p = choose|p: Seq<usize>|
                    fresh_at(parts, label, i, (c - 1) as nat, p) && (#[trigger] rest[k]).announcement.position
                        == relative_position(p, gcps[i].len()) && rest[k].obligations == seq![
                        ObligationModel {
                            pattern: rest[k].obligations[0].pattern,
                            position: relative_position(p, gcps[i].len()),
                        },
                    ];
                let c2 = choose|c2: nat|
                    1 <= c2 <= (c - 1) as nat && p == #[trigger] fresh_position(label, c2) && first_related(parts, p, i);
                assert(fresh_at(parts, label, i, c, p));
            } else {
                let fg = fresh_goals(rs, relative_position(pos, gcps[i].len()));
                assert(all == rest + fg);
                assert(all[k] == fg[k - rest.len()]);
                assert(fresh_at(parts, label, i, c, pos));
                assert(all[k].obligations =~= seq![
                    ObligationModel { pattern: all[k].obligations[0].pattern, position: relative_position(pos, gcps[i].len()) },
                ]);
            }
        }
    }
}

/// The positions of the goals of a partition are positions of the
/// partitioned goals.
proof fn lemma_partition_positions_from(gs: Seq<GoalModel>, parts: Seq<(Seq<GoalModel>, Seq<Seq<usize>>)>, i: int)
    requires
        is_partition(gs, parts),
        0 <= i < parts.len(),
    ensures
        forall|p: Seq<usize>| #[trigger] announcement_set(parts[i].0).contains(p) ==> announcement_set(gs).contains(p),
        forall|q: Seq<usize>| #[trigger] obligation_set(parts[i].0).contains(q) ==> obligation_set(gs).contains(q),
{
    let pg = parts[i].0;
    if !has_root_goal(gs) {
        lemma_goals_at_all_from(gs, parts[i].1);
    }
    assert forall|k: int| 0 <= k < pg.len() implies gs.contains(#[trigger] pg[k]) by {
        if has_root_goal(gs) {
            assert(pg == gs);
            assert(gs[k] == pg[k]);
        }
    }
    assert forall|p: Seq<usize>| #[trigger] announcement_set(pg).contains(p) implies announcement_set(gs).contains(p) by {
        let k = choose|k: int| 0 <= k < pg.len() && (#[trigger] pg[k]).announcement.position == p;
        assert(gs.contains(pg[k]));
        let k2 = choose|k2: int| 0 <= k2 < gs.len() && gs[k2] == pg[k];
    }
    assert forall|q: Seq<usize>| #[trigger] obligation_set(pg).contains(q) implies obligation_set(gs).contains(q) by {
        let (k, j) = choose|k: int, j: int|
            0 <= k < pg.len() && 0 <= j < pg[k].obligations.len() && (#[trigger] pg[k].obligations[j]).position == q;
        assert(gs.contains(pg[k]));
        let k2 = choose|k2: int| 0 <= k2 < gs.len() && gs[k2] == pg[k];
        assert(gs[k2].obligations[j].position == q);
    }
}

/// The goals of every destination of a transition from layered goals are
/// layered.
pub proof fn lemma_destinations_layered(
    gs: Seq<GoalModel>,
    label: Seq<usize>,
    f: usize,
    reduced: Seq<GoalModel>,
    rs: Seq<RuleModel>,
    arity: nat,
    apma: bool,
    dests: Seq<(Seq<usize>, DestinationModel)>,
    ts: Seq<Term>,
)
    requires
        goals_layered(gs, label),
        goals_in_shape(gs, ts),
        arities_bounded(ts),
        obligations_sorted_from(derivative_of(gs, label, f).2, reduced),
        destinations_of(derivative_of(gs, label, f).1 + reduced, label, rs, arity, apma, dests),
    ensures
        forall|m: int|
            0 <= m < dests.len() && (#[trigger] dests[m]).1 is Goals ==> layered_sets(
                announcement_set(dests[m].1->Goals_0),
                obligation_set(dests[m].1->Goals_0),
            ),
{
    let ng = derivative_of(gs, label, f).1 + reduced;
    let ags = announcement_set(gs);
    let ogs = obligation_set(gs);
    lemma_new_goals_positions(gs, label, f, reduced, ts);
    if apma {
        if ng.len() > 0 {
            assert(announcement_set(ng).contains(ng[0].announcement.position));
            assert(ags.contains(ng[0].announcement.position));
            let k = choose|k: int| 0 <= k < gs.len() && (#[trigger] gs[k]).announcement.position == ng[0].announcement.position;
            assert(gs.len() > 0);
            lemma_layered_below_label(ags, ogs, label, announcement_set(ng), obligation_set(ng));
            assert(dests[0].1->Goals_0 == ng);
        }
    } else {
        let (parts, gcps) = choose|parts: Seq<(Seq<GoalModel>, Seq<Seq<usize>>)>, gcps: Seq<Seq<usize>>|
            #![trigger is_partition(ng, parts), transition_destinations(parts, gcps, label, rs, arity)]
            is_partition(ng, parts) && gcps.len() == parts.len() && (forall|i: int|
                0 <= i < parts.len() ==> greatest_common_prefix_of(
                    (#[trigger] parts[i]).0,
                    gcps[i],
                )) && dests.to_multiset() == transition_destinations(
                parts,
                gcps,
                label,
                rs,
                arity,
            ).to_multiset();
        let td = transition_destinations(parts, gcps, label, rs, arity);
        lemma_initial_destinations(parts, label, arity);
        assert forall|m: int| 0 <= m < dests.len() && (#[trigger] dests[m]).1 is Goals implies layered_sets(
            announcement_set(dests[m].1->Goals_0),
            obligation_set(dests[m].1->Goals_0),
        ) by {
            vstd::seq_lib::to_multiset_contains(dests, dests[m]);
            vstd::seq_lib::to_multiset_contains(td, dests[m]);
            assert(dests.contains(dests[m]));
            assert(td.contains(dests[m]));
            let i = choose|i: int| 0 <= i < td.len() && td[i] == dests[m];
            if i < parts.len() {
                lemma_destination_layered(gs, label, ng, parts, gcps, rs, arity, i);
            } else {
                let init = initial_destinations(parts, label, arity);
                assert(td[i] == init[i - parts.len()]);
            }
        }
    }
}

/// The goals of the destination of partition `i` are layered.
proof fn lemma_destination_layered(
    gs: Seq<GoalModel>,
    label: Seq<usize>,
    ng: Seq<GoalModel>,
    parts: Seq<(Seq<GoalModel>, Seq<Seq<usize>>)>,
    gcps: Seq<Seq<usize>>,
    rs: Seq<RuleModel>,
    arity: nat,
    i: int,
)
    requires
        goals_layered(gs, label),
        forall|p: Seq<usize>| #[trigger] announcement_set(ng).contains(p) ==> announcement_set(gs).contains(p),
        forall|q: Seq<usize>|
            #[trigger] obligation_set(ng).contains(q) ==> (obligation_set(gs).contains(q) && q != label) || is_child(
                label,
                q,
            ),
        is_partition(ng, parts),
        gcps.len() == parts.len(),
        0 <= i < parts.len(),
        forall|i: int| 0 <= i < parts.len() ==> greatest_common_prefix_of((#[trigger] parts[i]).0, gcps[i]),
    ensures
        layered_sets(
            announcement_set(transition_destinations(parts, gcps, label, rs, arity)[i].1->Goals_0),
            obligation_set(transition_destinations(parts, gcps, label, rs, arity)[i].1->Goals_0),
        ),
{
    let ags = announcement_set(gs);
    let ogs = obligation_set(gs);
    let pg = parts[i].0;
    let gcp = gcps[i];
    let n = gcp.len();
    assert(greatest_common_prefix_of(pg, gcp));
    let a = goals_without_prefix(pg, n);
    let b = fresh_for(parts, gcps, label, rs, i, arity);
    let gl = a + b;
    assert(transition_destinations(parts, gcps, label, rs, arity)[i].1->Goals_0 == gl);
    lemma_partition_positions_from(ng, parts, i);
    // Some goal lies in the partition, so there are goals and the label is an obligation position.
    lemma_partition_nonempty(ng, parts, i);
    assert(announcement_set(pg).contains(pg[0].announcement.position));
    assert(announcement_set(ng).contains(pg[0].announcement.position));
    assert(ags.contains(pg[0].announcement.position));
    let k0 = choose|k: int| 0 <= k < gs.len() && (#[trigger] gs[k]).announcement.position == pg[0].announcement.position;
    assert(gs.len() > 0);
    assert(ogs.contains(label));
    assert(no_goal_below(ng, label)) by {
        assert forall|k: int| 0 <= k < ng.len() implies !strictly_below((#[trigger] ng[k]).announcement.position, label) by {
            assert(announcement_set(ng).contains(ng[k].announcement.position));
        }
    }
    let a1 = Set::new(|p: Seq<usize>| announcement_set(pg).contains(p) || fresh_at(parts, label, i, arity, p));
    let o1 = Set::new(|p: Seq<usize>| obligation_set(pg).contains(p) || fresh_at(parts, label, i, arity, p));
    assert forall|p: Seq<usize>| fresh_at(parts, label, i, arity, p) implies is_child(label, p) && is_prefix(gcp, p) by {
        let c2 = choose|c2: nat| 1 <= c2 <= arity && p == #[trigger] fresh_position(label, c2) && first_related(parts, p, i);
        assert(p.subrange(0, label.len() as int) =~= label);
        lemma_gcp_above_fresh(ng, parts, gcp, label, p, i);
    }
    lemma_layered_below_label(ags, ogs, label, a1, o1);
    assert forall|p: Seq<usize>| #[trigger] a1.contains(p) implies is_prefix(gcp, p) by {
        if announcement_set(pg).contains(p) {
            let k = choose|k: int| 0 <= k < pg.len() && (#[trigger] pg[k]).announcement.position == p;
            assert(goal_positions(pg[k])[0] == p);
        }
    }
    assert forall|p: Seq<usize>| #[trigger] o1.contains(p) implies is_prefix(gcp, p) by {
        if obligation_set(pg).contains(p) {
            let (k, j) = choose|k: int, j: int|
                0 <= k < pg.len() && 0 <= j < pg[k].obligations.len() && (#[trigger] pg[k].obligations[j]).position
                    == p;
            assert(goal_positions(pg[k])[j + 1] == p);
        }
    }
    lemma_fresh_for_positions(parts, gcps, label, rs, i, arity);
    assert forall|p: Seq<usize>| #[trigger] announcement_set(gl).contains(p) implies exists|x: Seq<usize>|
        a1.contains(x) && x.skip(n as int) == p by {
        let k = choose|k: int| 0 <= k < gl.len() && (#[trigger] gl[k]).announcement.position == p;
        if k < a.len() {
            assert(gl[k] == a[k]);
            assert(a[k] == goal_without_prefix(pg[k], n));
            let x = pg[k].announcement.position;
            assert(announcement_set(pg).contains(x));
            assert(a1.contains(x));
        } else {
            assert(gl[k] == b[k - a.len()]);
            let x = choose|x: Seq<usize>|
                fresh_at(parts, label, i, arity, x) && (#[trigger] b[k - a.len()]).announcement.position
                    == relative_position(x, n) && b[k - a.len()].obligations == seq![
                    ObligationModel { pattern: b[k - a.len()].obligations[0].pattern, position: relative_position(x, n) },
                ];
            assert(a1.contains(x));
        }
    }
    assert forall|q: Seq<usize>| #[trigger] obligation_set(gl).contains(q) implies exists|x: Seq<usize>|
        o1.contains(x) && x.skip(n as int) == q by {
        let (k, j) = choose|k: int, j: int|
            0 <= k < gl.len() && 0 <= j < gl[k].obligations.len() && (#[trigger] gl[k].obligations[j]).position == q;
        if k < a.len() {
            assert(gl[k] == a[k]);
            assert(a[k] == goal_without_prefix(pg[k], n));
            let x = pg[k].obligations[j].position;
            assert(obligation_set(pg).contains(x));
            assert(o1.contains(x));
        } else {
            assert(gl[k] == b[k - a.len()]);
            let x = choose|x: Seq<usize>|
                fresh_at(parts, label, i, arity, x) && (#[trigger] b[k - a.len()]).announcement.position
                    == relative_position(x, n) && b[k - a.len()].obligations == seq![
                    ObligationModel { pattern: b[k - a.len()].obligations[0].pattern, position: relative_position(x, n) },
                ];
            assert(j == 0);
            assert(o1.contains(x));
        }
    }
    lemma_layered_skip(a1, o1, gcp, announcement_set(gl), obligation_set(gl));
}

/// Every partition holds a goal.
proof fn lemma_partition_nonempty(gs: Seq<GoalModel>, parts: Seq<(Seq<GoalModel>, Seq<Seq<usize>>)>, i: int)
    requires
        is_partition(gs, parts),
        0 <= i < parts.len(),
    ensures
        parts[i].0.len() > 0,
{
    if has_root_goal(gs) {
        let k = choose|k: int| 0 <= k < gs.len() && (#[trigger] gs[k]).announcement.position.len() == 0;
        assert(parts[i].0 == gs);
    } else {
        let pp = parts[i].1;
        let ps = partition_positions(parts);
        let o = lemma_partition_positions_index(parts, i);
        assert(ps[o] == pp[0]);
        assert(ps.contains(pp[0]));
        let k = choose|k: int| 0 <= k < gs.len() && (#[trigger] gs[k]).announcement.position == pp[0];
        lemma_goals_at_all_positions(gs, pp);
        assert(gs[k].announcement.position == pp[0]);
        assert(parts[i].0.contains(gs[k]));
    }
}

/// Reading a symbol keeps the goals that are not announced strictly below
/// the label so: the kept and reduced goals are announced where they were.
pub proof fn lemma_new_goals_not_below(gs: Seq<GoalModel>, label: Seq<usize>, f: usize, reduced: Seq<GoalModel>)
    requires
        no_goal_below(gs, label),
        obligations_sorted_from(derivative_of(gs, label, f).2, reduced),
    ensures
        no_goal_below(derivative_of(gs, label, f).1 + reduced, label),
{
    let d = derivative_of(gs, label, f);
    lemma_derivative_announced(gs, label, f);
    let ng = d.1 + reduced;
    assert forall|k: int| 0 <= k < ng.len() implies !strictly_below((#[trigger] ng[k]).announcement.position, label) by {
        if k < d.1.len() {
            assert(ng[k] == d.1[k]);
        } else {
            assert(ng[k] == reduced[k - d.1.len()]);
            assert(reduced[k - d.1.len()].announcement == d.2[k - d.1.len()].announcement);
        }
    }
}

/// The goals that a derivative keeps or reduces are announced where goals of
/// `gs` are announced, so not strictly below the label when no goal is.
proof fn lemma_derivative_announced(gs: Seq<GoalModel>, label: Seq<usize>, f: usize)
    requires
        no_goal_below(gs, label),
    ensures
        no_goal_below(derivative_of(gs, label, f).1, label),
        no_goal_below(derivative_of(gs, label, f).2, label),
    decreases gs.len(),
{
    if gs.len() > 0 {
        let rest = gs.drop_last();
        let g = gs.last();
        assert(!strictly_below(gs[gs.len() - 1].announcement.position, label));
        assert(no_goal_below(rest, label)) by {
            assert forall|k: int| 0 <= k < rest.len() implies !strictly_below((#[trigger] rest[k]).announcement.position, label) by {
                assert(rest[k] == gs[k]);
            }
        }
        lemma_derivative_announced(rest, label, f);
        let d = derivative_of(gs, label, f);
        let r = derivative_of(rest, label, f);
        assert forall|k: int| 0 <= k < d.1.len() implies !strictly_below((#[trigger] d.1[k]).announcement.position, label) by {
            if k < r.1.len() {
                assert(d.1[k] == r.1[k]);
            } else {
                assert(d.1[k] == unchanged_goal(g));
            }
        }
        assert forall|k: int| 0 <= k < d.2.len() implies !strictly_below((#[trigger] d.2[k]).announcement.position, label) by {
            if k < r.2.len() {
                assert(d.2[k] == r.2[k]);
            } else {
                assert(d.2[k] == reduced_goal(g, label, f));
            }
        }
    }
}

/// The fresh goals at the root are layered for the root as label.
pub proof fn lemma_fresh_root_layered(rs: Seq<RuleModel>)
    ensures
        goals_layered(fresh_goals(rs, Seq::empty()), Seq::empty()),
{
    let gs = fresh_goals(rs, Seq::empty());
    let e = Seq::<usize>::empty();
    assert forall|p: Seq<usize>| #[trigger] announcement_set(gs).contains(p) implies p == e by {
        let k = choose|k: int| 0 <= k < gs.len() && (#[trigger] gs[k]).announcement.position == p;
        assert(gs[k] == fresh_goal(rs[k], e));
    }
    assert forall|q: Seq<usize>| #[trigger] obligation_set(gs).contains(q) implies q == e by {
        let (k, j) = choose|k: int, j: int|
            0 <= k < gs.len() && 0 <= j < gs[k].obligations.len() && (#[trigger] gs[k].obligations[j]).position == q;
        assert(gs[k] == fresh_goal(rs[k], e));
    }
    if gs.len() > 0 {
        assert(gs[0] == fresh_goal(rs[0], e));
        assert(gs[0].obligations[0].position == e);
        assert(obligation_set(gs).contains(e));
    }
}

} // verus!
