use vstd::prelude::*;

use crate::announcement::{positions_view, AnnouncementModel, MatchAnnouncement};
use crate::automaton::{obligations_view, MatchObligation, ObligationModel};
use crate::rewrite_specification::RuleModel;
use crate::position::{
    comparable, is_prefix, lemma_lex_asymmetric, lemma_lex_irreflexive, lemma_lex_total,
    lemma_lex_transitive, lex_lt, ExplicitPosition,
};

verus! {

/// The model of a match goal.
pub struct GoalModel {
    pub obligations: Seq<ObligationModel>,
    pub announcement: AnnouncementModel,
}

/// A match goal: once all obligations are matched, the announcement holds.
#[derive(Debug)]
pub struct MatchGoal {
    pub obligations: Vec<MatchObligation>,
    pub announcement: MatchAnnouncement,
}

impl MatchGoal {
    /// The model of this goal.
    pub open spec fn view(&self) -> GoalModel {
        GoalModel { obligations: obligations_view(self.obligations@), announcement: self.announcement@ }
    }

    /// Returns a copy of this goal.
    pub fn copy(&self) -> (result: MatchGoal)
        ensures
            result@ == self@,
    {
        let mut obligations: Vec<MatchObligation> = Vec::new();
        let mut i: usize = 0;
        while i < self.obligations.len()
            invariant
                i <= self.obligations@.len(),
                obligations@.len() == i,
                forall|j: int| 0 <= j < i ==> (#[trigger] obligations@[j])@ == self.obligations@[j]@,
            decreases self.obligations@.len() - i,
        {
            obligations.push(self.obligations[i].copy());
            i = i + 1;
        }
        let result = MatchGoal { obligations, announcement: self.announcement.copy() };
        assert(obligations_view(result.obligations@) =~= obligations_view(self.obligations@));
        result
    }
}

impl Clone for MatchGoal {
    fn clone(&self) -> (result: MatchGoal)
        ensures
            result@ == self@,
    {
        self.copy()
    }
}

/// The models of a sequence of goals.
pub open spec fn goals_view(s: Seq<MatchGoal>) -> Seq<GoalModel> {
    s.map_values(|g: MatchGoal| g@)
}

/// The positions of a goal: that of its announcement, then those of its
/// obligations.
pub open spec fn goal_positions(g: GoalModel) -> Seq<Seq<usize>> {
    seq![g.announcement.position] + g.obligations.map_values(|o: ObligationModel| o.position)
}

/// `p` is a prefix of every position of every goal.
pub open spec fn common_prefix_of(gs: Seq<GoalModel>, p: Seq<usize>) -> bool {
    forall|k: int, j: int|
        0 <= k < gs.len() && 0 <= j < goal_positions(gs[k]).len() ==> is_prefix(
            p,
            #[trigger] goal_positions(gs[k])[j],
        )
}

/// `p` is the greatest common prefix of the positions of the goals: a common
/// prefix that cannot be extended (any common prefix is a prefix of the
/// announcement position of the first goal, so it is unique).
pub open spec fn greatest_common_prefix_of(gs: Seq<GoalModel>, p: Seq<usize>) -> bool {
    if gs.len() == 0 {
        p == Seq::<usize>::empty()
    } else {
        let first = gs[0].announcement.position;
        &&& common_prefix_of(gs, p)
        &&& (p.len() == first.len() || !common_prefix_of(gs, first.take(p.len() + 1int)))
    }
}

/// The goal with the first `len` indices removed from all its positions.
pub open spec fn goal_without_prefix(g: GoalModel, len: nat) -> GoalModel {
    GoalModel {
        obligations: g.obligations.map_values(
            |o: ObligationModel| ObligationModel { pattern: o.pattern, position: o.position.skip(len as int) },
        ),
        announcement: AnnouncementModel {
            rule: g.announcement.rule,
            position: g.announcement.position.skip(len as int),
            symbols_seen: g.announcement.symbols_seen,
        },
    }
}

/// Every position of every goal has at least `len` indices.
pub open spec fn positions_longer_than(gs: Seq<GoalModel>, len: nat) -> bool {
    forall|k: int, j: int|
        0 <= k < gs.len() && 0 <= j < goal_positions(gs[k]).len() ==> len <= (#[trigger] goal_positions(
            gs[k],
        )[j]).len()
}

impl MatchGoal {
    /// Checks for two positions whether one is a subposition of the other.
    /// For example 2.2.3 and 2 are comparable. 2.2.3 and 1 are not.
    pub fn pos_comparable(p1: &ExplicitPosition, p2: &ExplicitPosition) -> (result: bool)
        ensures
            result == comparable(p1@, p2@),
    {
        let n1 = p1.len();
        let n2 = p2.len();
        let mut index: usize = 0;
        loop
            invariant
                index <= n1,
                index <= n2,
                n1 == p1@.len(),
                n2 == p2@.len(),
                p1@.take(index as int) == p2@.take(index as int),
            decreases n1 - index,
        {
            if n1 == index || n2 == index {
                if n1 == index {
                    assert(p1@.take(index as int) =~= p1@);
                    assert(is_prefix(p1@, p2@));
                } else {
                    assert(p2@.take(index as int) =~= p2@);
                    assert(is_prefix(p2@, p1@));
                }
                return true;
            }
            if p1.index(index) != p2.index(index) {
                proof {
                    if is_prefix(p1@, p2@) {
                        assert(p2@.subrange(0, n1 as int)[index as int] == p2@[index as int]);
                    }
                    if is_prefix(p2@, p1@) {
                        assert(p1@.subrange(0, n2 as int)[index as int] == p1@[index as int]);
                    }
                }
                return false;
            }
            assert(p1@.take(index + 1) =~= p1@.take(index as int).push(p1@[index as int]));
            assert(p2@.take(index + 1) =~= p2@.take(index as int).push(p2@[index as int]));
            index = index + 1;
        }
    }

    /// Assumes two slices are of the same length and computes to what length they are equal
    pub fn common_prefix_length(pos1: &[usize], pos2: &[usize]) -> (result: usize)
        requires
            pos1@.len() == pos2@.len(),
        ensures
            result <= pos1@.len(),
            pos1@.take(result as int) == pos2@.take(result as int),
            result < pos1@.len() ==> pos1@[result as int] != pos2@[result as int],
    {
        let mut common_length: usize = 0;
        while common_length < pos1.len()
            invariant
                common_length <= pos1@.len(),
                pos1@.len() == pos2@.len(),
                pos1@.take(common_length as int) == pos2@.take(common_length as int),
            decreases pos1@.len() - common_length,
        {
            if pos1[common_length] != pos2[common_length] {
                return common_length;
            }
            assert(pos1@.take(common_length + 1) =~= pos1@.take(common_length as int).push(
                pos1@[common_length as int],
            ));
            assert(pos2@.take(common_length + 1) =~= pos2@.take(common_length as int).push(
                pos2@[common_length as int],
            ));
            common_length = common_length + 1;
        }
        common_length
    }

    /// Removes the first len position indices of the match goal and obligation positions
    pub fn remove_prefix(goals: Vec<MatchGoal>, len: usize) -> (result: Vec<MatchGoal>)
        requires
            positions_longer_than(goals_view(goals@), len as nat),
        ensures
            result@.len() == goals@.len(),
            forall|k: int|
                0 <= k < goals@.len() ==> (#[trigger] goals_view(result@)[k]) == goal_without_prefix(
                    goals_view(goals@)[k],
                    len as nat,
                ),
    {
        let ghost gs = goals_view(goals@);
        let mut goals = goals;
        let mut result: Vec<MatchGoal> = Vec::new();
        let ghost mut k: int = 0;
        while goals.len() > 0
            invariant
                0 <= k <= gs.len(),
                goals_view(goals@) == gs.skip(k),
                result@.len() == k,
                positions_longer_than(gs, len as nat),
                forall|a: int|
                    0 <= a < k ==> (#[trigger] goals_view(result@)[a]) == goal_without_prefix(
                        gs[a],
                        len as nat,
                    ),
            decreases goals@.len(),
        {
            let ghost old_goals = goals@;
            assert(goals_view(old_goals).len() == old_goals.len());
            assert(k < gs.len());
            assert(goals_view(old_goals)[0] == old_goals[0]@);
            assert(gs.skip(k)[0] == gs[k]);
            let goal = goals.remove(0);
            assert(goal@ == gs[k]);
            assert(goal_positions(gs[k])[0] == gs[k].announcement.position);
            let mut obligations: Vec<MatchObligation> = Vec::new();
            let mut mo_index: usize = 0;
            while mo_index < goal.obligations.len()
                invariant
                    mo_index <= goal.obligations@.len(),
                    obligations@.len() == mo_index,
                    goal@ == gs[k],
                    0 <= k < gs.len(),
                    positions_longer_than(gs, len as nat),
                    forall|j: int|
                        0 <= j < mo_index ==> (#[trigger] obligations@[j])@ == (ObligationModel {
                            pattern: goal@.obligations[j].pattern,
                            position: goal@.obligations[j].position.skip(len as int),
                        }),
                decreases goal.obligations@.len() - mo_index,
            {
                let mo = &goal.obligations[mo_index];
                assert(goal_positions(gs[k])[mo_index + 1] == goal@.obligations[mo_index as int].position);
                let shortened = mo.position.skip(len);
                obligations.push(MatchObligation { pattern: mo.pattern.copy(), position: shortened });
                mo_index = mo_index + 1;
            }
            // update match announcement
            let position = goal.announcement.position.skip(len);
            let announcement = MatchAnnouncement {
                rule: goal.announcement.rule,
                position,
                symbols_seen: goal.announcement.symbols_seen,
            };
            let ghost before = goals_view(result@);
            result.push(MatchGoal { obligations, announcement });
            proof {
                let g = goals_view(result@)[k];
                assert(g.obligations =~= goal_without_prefix(gs[k], len as nat).obligations);
                assert(goals_view(result@) =~= before.push(goal_without_prefix(gs[k], len as nat)));
                assert forall|i: int| 0 <= i < goals@.len() implies goals_view(goals@)[i] == gs.skip(
                    k + 1,
                )[i] by {
                    assert(goals@[i] == old_goals[i + 1]);
                    assert(goals_view(old_goals)[i + 1] == gs.skip(k)[i + 1]);
                }
                assert(goals_view(goals@) =~= gs.skip(k + 1));
                k = k + 1;
            }
        }
        result
    }
}

/// If `a.take(n)` is a prefix of `q`, so is every shorter prefix of `a`.
proof fn lemma_shorter_prefix(a: Seq<usize>, n: int, m: int, q: Seq<usize>)
    requires
        0 <= m <= n <= a.len(),
        is_prefix(a.take(n), q),
    ensures
        is_prefix(a.take(m), q),
{
    assert(q.subrange(0, m) =~= q.subrange(0, n).subrange(0, m));
    assert(a.take(m) =~= a.take(n).subrange(0, m));
}

/// Shrinks the common prefix length `g` of `a` so that `a.take(result)` is
/// also a prefix of `q`: the longest prefix of `a.take(g)` that `q` has.
fn shrink_prefix(a: &Vec<usize>, g: usize, q: &ExplicitPosition) -> (result: usize)
    requires
        g <= a@.len(),
    ensures
        result <= g,
        is_prefix(a@.take(result as int), q@),
        result == g || !is_prefix(a@.take(result + 1), q@),
{
    let qv = q.to_vec();
    // Compare up to gcp_length or the length of the position
    let compare_length = if g < qv.len() {
        g
    } else {
        qv.len()
    };
    let s1 = vstd::slice::slice_subrange(a.as_slice(), 0, compare_length);
    let s2 = vstd::slice::slice_subrange(qv.as_slice(), 0, compare_length);
    // gcp_length shrinks if they are not the same up to compare_length
    let result = MatchGoal::common_prefix_length(s1, s2);
    assert(s1@.take(result as int) =~= a@.take(result as int));
    assert(s2@.take(result as int) =~= q@.subrange(0, result as int));
    proof {
        if result < g {
            if result < compare_length {
                assert(s1@[result as int] == a@[result as int]);
                assert(s2@[result as int] == q@[result as int]);
                if is_prefix(a@.take(result + 1), q@) {
                    assert(q@.subrange(0, result + 1)[result as int] == a@.take(result + 1)[result as int]);
                }
            }
        }
    }
    result
}

impl MatchGoal {
    /// Derive the greatest common prefix (gcp) of the announcement and obligation positions
    /// of a list of match goals.
    pub fn greatest_common_prefix(goals: &Vec<MatchGoal>) -> (result: ExplicitPosition)
        ensures
            greatest_common_prefix_of(goals_view(goals@), result@),
    {
        let ghost gs = goals_view(goals@);
        // gcp is empty if there are no match goals
        if goals.len() == 0 {
            return ExplicitPosition::empty_pos();
        }
        // Initialise the prefix with the first match goal, can only shrink afterwards
        let prefix = goals[0].announcement.position.to_vec();
        let ghost first = prefix@;
        assert(first == gs[0].announcement.position);
        let mut gcp_length = prefix.len();
        let mut k: usize = 0;
        while k < goals.len()
            invariant
                k <= goals@.len(),
                gs == goals_view(goals@),
                gs.len() > 0,
                prefix@ == first,
                first == gs[0].announcement.position,
                gcp_length <= first.len(),
                forall|a: int, b: int|
                    0 <= a < k && 0 <= b < goal_positions(gs[a]).len() ==> is_prefix(
                        first.take(gcp_length as int),
                        #[trigger] goal_positions(gs[a])[b],
                    ),
                gcp_length == first.len() || exists|a: int, b: int|
                    0 <= a < k && 0 <= b < goal_positions(gs[a]).len() && !is_prefix(
                        first.take(gcp_length + 1),
                        #[trigger] goal_positions(gs[a])[b],
                    ),
            decreases goals@.len() - k,
        {
            let g = &goals[k];
            assert(g@ == gs[k as int]);
            let ghost ps = goal_positions(gs[k as int]);
            assert(ps[0] == g.announcement.position@);
            let ghost old_gcp = gcp_length;
            gcp_length = shrink_prefix(&prefix, gcp_length, &g.announcement.position);
            proof {
                assert forall|a: int, b: int|
                    0 <= a < k && 0 <= b < goal_positions(gs[a]).len() implies is_prefix(
                        first.take(gcp_length as int),
                        #[trigger] goal_positions(gs[a])[b],
                    ) by {
                    lemma_shorter_prefix(first, old_gcp as int, gcp_length as int, goal_positions(gs[a])[b]);
                }
            }
            let mut j: usize = 0;
            while j < g.obligations.len()
                invariant
                    j <= g.obligations@.len(),
                    k < goals@.len(),
                    gs == goals_view(goals@),
                    g@ == gs[k as int],
                    ps == goal_positions(gs[k as int]),
                    ps.len() == g.obligations@.len() + 1,
                    prefix@ == first,
                    gcp_length <= first.len(),
                    forall|a: int, b: int|
                        0 <= a < k && 0 <= b < goal_positions(gs[a]).len() ==> is_prefix(
                            first.take(gcp_length as int),
                            #[trigger] goal_positions(gs[a])[b],
                        ),
                    forall|b: int| 0 <= b <= j ==> is_prefix(first.take(gcp_length as int), #[trigger] ps[b]),
                    gcp_length == first.len() || (exists|a: int, b: int|
                        0 <= a < k && 0 <= b < goal_positions(gs[a]).len() && !is_prefix(
                            first.take(gcp_length + 1),
                            #[trigger] goal_positions(gs[a])[b],
                        )) || exists|b: int| 0 <= b <= j && !is_prefix(first.take(gcp_length + 1), #[trigger] ps[b]),
                decreases g.obligations@.len() - j,
            {
                let mo = &g.obligations[j];
                assert(ps[j + 1] == mo.position@);
                let ghost old_gcp = gcp_length;
                // gcp_length shrinks if they are not the same up to compare_length
                gcp_length = shrink_prefix(&prefix, gcp_length, &mo.position);
                proof {
                    assert forall|a: int, b: int|
                        0 <= a < k && 0 <= b < goal_positions(gs[a]).len() implies is_prefix(
                            first.take(gcp_length as int),
                            #[trigger] goal_positions(gs[a])[b],
                        ) by {
                        lemma_shorter_prefix(first, old_gcp as int, gcp_length as int, goal_positions(gs[a])[b]);
                    }
                    assert forall|b: int| 0 <= b <= j + 1 implies is_prefix(
                        first.take(gcp_length as int),
                        #[trigger] ps[b],
                    ) by {
                        if b <= j {
                            lemma_shorter_prefix(first, old_gcp as int, gcp_length as int, ps[b]);
                        }
                    }
                    if gcp_length < old_gcp {
                        assert(!is_prefix(first.take(gcp_length + 1), ps[j + 1]));
                    }
                }
                j = j + 1;
            }
            proof {
                if gcp_length != first.len() {
                    if !(exists|a: int, b: int|
                        0 <= a < k && 0 <= b < goal_positions(gs[a]).len() && !is_prefix(
                            first.take(gcp_length + 1),
                            #[trigger] goal_positions(gs[a])[b],
                        )) {
                        let b = choose|b: int| 0 <= b <= j && !is_prefix(first.take(gcp_length + 1), #[trigger] ps[b]);
                        assert(!is_prefix(first.take(gcp_length + 1), goal_positions(gs[k as int])[b]));
                    }
                }
            }
            k = k + 1;
        }
        // The gcp is constructed by taking the first gcp_length indices of the first match goal prefix
        let result = ExplicitPosition::new(vstd::slice::slice_subrange(prefix.as_slice(), 0, gcp_length));
        assert(result@ =~= first.take(gcp_length as int));
        proof {
            assert(first.take(first.len() as int) =~= first);
            if gcp_length != first.len() {
                let (a, b) = choose|a: int, b: int|
                    0 <= a < k && 0 <= b < goal_positions(gs[a]).len() && !is_prefix(
                        first.take(gcp_length + 1),
                        #[trigger] goal_positions(gs[a])[b],
                    );
                assert(!common_prefix_of(gs, first.take(gcp_length + 1)));
            }
        }
        result
    }
}

/// The goals whose announcement is at position `p`, in their order.
pub open spec fn goals_at(gs: Seq<GoalModel>, p: Seq<usize>) -> Seq<GoalModel>
    decreases gs.len(),
{
    if gs.len() == 0 {
        Seq::empty()
    } else {
        let rest = goals_at(gs.drop_last(), p);
        if gs.last().announcement.position == p {
            rest.push(gs.last())
        } else {
            rest
        }
    }
}

/// The goals at each of the positions, one position after the other.
pub open spec fn goals_at_all(gs: Seq<GoalModel>, ps: Seq<Seq<usize>>) -> Seq<GoalModel>
    decreases ps.len(),
{
    if ps.len() == 0 {
        Seq::empty()
    } else {
        goals_at_all(gs, ps.drop_last()) + goals_at(gs, ps.last())
    }
}

/// The announcement positions of the goals, each once, in the order in which
/// they first occur.
pub open spec fn announcement_positions(gs: Seq<GoalModel>) -> Seq<Seq<usize>>
    decreases gs.len(),
{
    if gs.len() == 0 {
        Seq::empty()
    } else {
        let rest = announcement_positions(gs.drop_last());
        if rest.contains(gs.last().announcement.position) {
            rest
        } else {
            rest.push(gs.last().announcement.position)
        }
    }
}

/// The positions of the partitions, one partition after the other.
pub open spec fn partition_positions(parts: Seq<(Seq<GoalModel>, Seq<Seq<usize>>)>) -> Seq<Seq<usize>>
    decreases parts.len(),
{
    if parts.len() == 0 {
        Seq::empty()
    } else {
        partition_positions(parts.drop_last()) + parts.last().1
    }
}

/// The models of partitions.
pub open spec fn partitions_view(s: Seq<(Vec<MatchGoal>, Vec<ExplicitPosition>)>) -> Seq<
    (Seq<GoalModel>, Seq<Seq<usize>>),
> {
    s.map_values(|x: (Vec<MatchGoal>, Vec<ExplicitPosition>)| (goals_view(x.0@), positions_view(x.1@)))
}

/// Some goal is announced at the root.
pub open spec fn has_root_goal(gs: Seq<GoalModel>) -> bool {
    exists|k: int| 0 <= k < gs.len() && (#[trigger] gs[k]).announcement.position.len() == 0
}

/// `parts` is the partition of the goals by their announcement positions.
///
/// When a goal is announced at the root, all goals are related: there is one
/// partition with all goals and their distinct announcement positions.
/// Otherwise the distinct announcement positions are sorted; each partition
/// starts with the next position that is not in an earlier partition and
/// takes the following positions as long as they lie below that first one.
/// A partition holds the goals announced at each of its positions, one
/// position after the other, in their order.
pub open spec fn is_partition(gs: Seq<GoalModel>, parts: Seq<(Seq<GoalModel>, Seq<Seq<usize>>)>) -> bool {
    if has_root_goal(gs) {
        parts.len() == 1 && parts[0].0 == gs && parts[0].1 == announcement_positions(gs)
    } else {
        let ps = partition_positions(parts);
        &&& forall|i: int, j: int| 0 <= i < j < ps.len() ==> lex_lt(ps[i], ps[j])
        &&& forall|p: Seq<usize>|
            ps.contains(p) <==> exists|k: int|
                0 <= k < gs.len() && (#[trigger] gs[k]).announcement.position == p
        &&& forall|i: int|
            0 <= i < parts.len() ==> (#[trigger] parts[i]).1.len() > 0 && parts[i].0 == goals_at_all(
                gs,
                parts[i].1,
            ) && forall|j: int| 0 <= j < parts[i].1.len() ==> comparable(parts[i].1[0], #[trigger] parts[i].1[j])
        &&& forall|i: int|
            0 <= i < parts.len() - 1 ==> !comparable((#[trigger] parts[i]).1[0], parts[i + 1].1[0])
    }
}

/// Returns copies of the goals announced at the position, in their order.
fn goals_at_position(goals: &Vec<MatchGoal>, p: &ExplicitPosition) -> (result: Vec<MatchGoal>)
    ensures
        goals_view(result@) == goals_at(goals_view(goals@), p@),
{
    let ghost gs = goals_view(goals@);
    let mut result: Vec<MatchGoal> = Vec::new();
    let mut i: usize = 0;
    assert(gs.take(0) =~= Seq::<GoalModel>::empty());
    while i < goals.len()
        invariant
            i <= goals@.len(),
            gs == goals_view(goals@),
            goals_view(result@) == goals_at(gs.take(i as int), p@),
        decreases goals@.len() - i,
    {
        let ghost before = goals_view(result@);
        assert(gs.take(i + 1).drop_last() =~= gs.take(i as int));
        assert(gs.take(i + 1).last() == goals@[i as int]@);
        if goals[i].announcement.position.same(p) {
            result.push(goals[i].copy());
            assert(goals_view(result@) =~= before.push(goals@[i as int]@));
        }
        i = i + 1;
    }
    assert(gs.take(goals@.len() as int) =~= gs);
    result
}

/// Returns the distinct announcement positions of the goals, in the order in
/// which they first occur.
fn distinct_announcement_positions(goals: &Vec<MatchGoal>) -> (result: Vec<ExplicitPosition>)
    ensures
        positions_view(result@) == announcement_positions(goals_view(goals@)),
{
    let ghost gs = goals_view(goals@);
    let mut all_positions: Vec<ExplicitPosition> = Vec::new();
    let mut i: usize = 0;
    assert(gs.take(0) =~= Seq::<GoalModel>::empty());
    while i < goals.len()
        invariant
            i <= goals@.len(),
            gs == goals_view(goals@),
            positions_view(all_positions@) == announcement_positions(gs.take(i as int)),
        decreases goals@.len() - i,
    {
        let ghost before = positions_view(all_positions@);
        assert(gs.take(i + 1).drop_last() =~= gs.take(i as int));
        assert(gs.take(i + 1).last() == goals@[i as int]@);
        let p = &goals[i].announcement.position;
        let mut found = false;
        let mut j: usize = 0;
        while j < all_positions.len()
            invariant
                j <= all_positions@.len(),
                before == positions_view(all_positions@),
                found == exists|a: int| 0 <= a < j && before[a] == p@,
            decreases all_positions@.len() - j,
        {
            assert(before[j as int] == all_positions@[j as int]@);
            if all_positions[j].same(p) {
                found = true;
            }
            j = j + 1;
        }
        if !found {
            all_positions.push(p.clone());
            assert(positions_view(all_positions@) =~= before.push(p@));
        } else {
            proof {
                let a = choose|a: int| 0 <= a < j && before[a] == p@;
                assert(before.contains(p@));
            }
        }
        i = i + 1;
    }
    assert(gs.take(goals@.len() as int) =~= gs);
    all_positions
}

/// Whether some goal is announced at the root.
fn any_root_goal(goals: &Vec<MatchGoal>) -> (result: bool)
    ensures
        result == has_root_goal(goals_view(goals@)),
{
    let mut i: usize = 0;
    while i < goals.len()
        invariant
            i <= goals@.len(),
            forall|k: int| 0 <= k < i ==> (#[trigger] goals_view(goals@)[k]).announcement.position.len() != 0,
        decreases goals@.len() - i,
    {
        if goals[i].announcement.position.is_empty() {
            assert(goals_view(goals@)[i as int].announcement.position.len() == 0);
            return true;
        }
        i = i + 1;
    }
    false
}

/// Returns the distinct announcement positions of the goals, sorted in the
/// lexicographic order.
fn sorted_announcement_positions(goals: &Vec<MatchGoal>) -> (result: Vec<ExplicitPosition>)
    ensures
        forall|i: int, j: int|
            0 <= i < j < result@.len() ==> lex_lt(result@[i]@, result@[j]@),
        forall|p: Seq<usize>|
            positions_view(result@).contains(p) <==> exists|k: int|
                0 <= k < goals@.len() && (#[trigger] goals_view(goals@)[k]).announcement.position == p,
{
    let ghost gs = goals_view(goals@);
    let mut sorted: Vec<ExplicitPosition> = Vec::new();
    let mut i: usize = 0;
    while i < goals.len()
        invariant
            i <= goals@.len(),
            gs == goals_view(goals@),
            forall|a: int, b: int| 0 <= a < b < sorted@.len() ==> lex_lt(sorted@[a]@, sorted@[b]@),
            forall|p: Seq<usize>|
                positions_view(sorted@).contains(p) <==> exists|k: int|
                    0 <= k < i && (#[trigger] gs[k]).announcement.position == p,
        decreases goals@.len() - i,
    {
        let p = &goals[i].announcement.position;
        assert(gs[i as int].announcement.position == p@);
        // Find the first position that does not come before p.
        let mut j: usize = 0;
        while j < sorted.len() && sorted[j].less_than(p)
            invariant
                j <= sorted@.len(),
                forall|a: int| 0 <= a < j ==> lex_lt(#[trigger] sorted@[a]@, p@),
            decreases sorted@.len() - j,
        {
            j = j + 1;
        }
        let ghost before = sorted@;
        if j < sorted.len() && sorted[j].same(p) {
            assert(positions_view(sorted@)[j as int] == p@);
            assert forall|q: Seq<usize>|
                positions_view(sorted@).contains(q) <==> exists|k: int|
                    0 <= k < i + 1 && (#[trigger] gs[k]).announcement.position == q by {
                if q == p@ {
                    assert(positions_view(sorted@)[j as int] == q);
                }
            }
        } else {
            sorted.insert(j, p.clone());
            proof {
                assert(sorted@ == before.insert(j as int, sorted@[j as int]));
                if j < before.len() {
                    assert(!lex_lt(before[j as int]@, p@));
                    assert(before[j as int]@ != p@);
                    lemma_lex_total(before[j as int]@, p@);
                }
                assert forall|a: int, b: int| 0 <= a < b < sorted@.len() implies lex_lt(
                    sorted@[a]@,
                    sorted@[b]@,
                ) by {
                    if b < j {
                    } else if a < j && b == j {
                    } else if a < j && b > j {
                        assert(sorted@[b] == before[b - 1]);
                        if j < before.len() {
                            lemma_lex_transitive(sorted@[a]@, p@, before[j as int]@);
                            if b - 1 > j {
                                lemma_lex_transitive(sorted@[a]@, before[j as int]@, before[b - 1]@);
                            }
                        }
                    } else if a == j {
                        assert(sorted@[b] == before[b - 1]);
                        if b - 1 > j {
                            lemma_lex_transitive(p@, before[j as int]@, before[b - 1]@);
                        }
                    } else {
                        assert(sorted@[a] == before[a - 1]);
                        assert(sorted@[b] == before[b - 1]);
                    }
                }
                assert forall|q: Seq<usize>|
                    positions_view(sorted@).contains(q) <==> exists|k: int|
                        0 <= k < i + 1 && (#[trigger] gs[k]).announcement.position == q by {
                    if positions_view(sorted@).contains(q) {
                        let c = choose|c: int| 0 <= c < sorted@.len() && positions_view(sorted@)[c] == q;
                        if c != j {
                            let d = if c < j { c } else { c - 1 };
                            assert(sorted@[c] == before[d]);
                            assert(positions_view(before)[d] == q);
                            assert(positions_view(before).contains(q));
                            let k = choose|k: int| 0 <= k < i && (#[trigger] gs[k]).announcement.position == q;
                            assert(gs[k].announcement.position == q);
                        } else {
                            assert(gs[i as int].announcement.position == q);
                        }
                    }
                    if exists|k: int| 0 <= k < i + 1 && (#[trigger] gs[k]).announcement.position == q {
                        let k = choose|k: int| 0 <= k < i + 1 && (#[trigger] gs[k]).announcement.position == q;
                        if q != p@ {
                            assert(k < i);
                            assert(exists|k: int| 0 <= k < i && (#[trigger] gs[k]).announcement.position == q);
                            assert(positions_view(before).contains(q));
                            let d = choose|d: int| 0 <= d < before.len() && positions_view(before)[d] == q;
                            let c = if d < j { d } else { d + 1 };
                            assert(sorted@[c] == before[d]);
                            assert(positions_view(sorted@)[c] == q);
                        } else {
                            assert(positions_view(sorted@)[j as int] == q);
                        }
                    }
                }
            }
        }
        i = i + 1;
    }
    sorted
}

impl MatchGoal {
    /// Partition a set of match goals (a transition is split into different states).
    /// There are multiple options for partitioning.
    /// What is now implemented is that goals are related if there match announcement positions
    /// are comparable (they are the same or one is higher), checked using pos_comparable.
    ///
    /// Returns a Vec where each element is a partition containing the goals and the positions.
    pub fn partition(goals: Vec<MatchGoal>) -> (result: Vec<(Vec<MatchGoal>, Vec<ExplicitPosition>)>)
        ensures
            is_partition(goals_view(goals@), partitions_view(result@)),
    {
        let ghost gs = goals_view(goals@);
        let mut partitions: Vec<(Vec<MatchGoal>, Vec<ExplicitPosition>)> = Vec::new();

        // If one of the goals has a root position all goals are related.
        if any_root_goal(&goals) {
            let all_positions = distinct_announcement_positions(&goals);
            partitions.push((goals, all_positions));
            assert(partitions_view(partitions@)[0] == (gs, announcement_positions(gs)));
            return partitions;
        }

        // Sort the positions. They are now in depth first order.
        let all_positions = sorted_announcement_positions(&goals);
        let ghost ps = positions_view(all_positions@);
        let n = all_positions.len();

        // Compute the partitions, finished when all positions are processed
        let mut p_index: usize = 0;
        while p_index < n
            invariant
                p_index <= n,
                n == all_positions@.len(),
                ps == positions_view(all_positions@),
                gs == goals_view(goals@),
                partition_positions(partitions_view(partitions@)) == ps.take(p_index as int),
                forall|i: int|
                    0 <= i < partitions@.len() ==> (#[trigger] partitions_view(partitions@)[i]).1.len() > 0
                        && partitions_view(partitions@)[i].0 == goals_at_all(
                        gs,
                        partitions_view(partitions@)[i].1,
                    ) && forall|j: int|
                        0 <= j < partitions_view(partitions@)[i].1.len() ==> comparable(
                            partitions_view(partitions@)[i].1[0],
                            #[trigger] partitions_view(partitions@)[i].1[j],
                        ),
                forall|i: int|
                    0 <= i < partitions@.len() - 1 ==> !comparable(
                        (#[trigger] partitions_view(partitions@)[i]).1[0],
                        partitions_view(partitions@)[i + 1].1[0],
                    ),
                partitions@.len() > 0 && p_index < n ==> !comparable(
                    partitions_view(partitions@)[partitions@.len() - 1].1[0],
                    ps[p_index as int],
                ),
                partitions@.len() == 0 <==> p_index == 0,
            decreases n - p_index,
        {
            // Start the partition with a position
            let start = p_index;
            let p = &all_positions[start];
            let mut pos_in_partition: Vec<ExplicitPosition> = Vec::new();
            pos_in_partition.push(p.clone());
            // put the goals with position p in the partition
            let mut goals_in_partition = goals_at_position(&goals, p);
            proof {
                assert(positions_view(pos_in_partition@) =~= seq![ps[start as int]]);
                let one = seq![ps[start as int]];
                assert(one.drop_last() =~= Seq::<Seq<usize>>::empty());
                assert(one.last() == ps[start as int]);
                assert(goals_at_all(gs, one.drop_last()) == Seq::<GoalModel>::empty());
                assert(goals_at_all(gs, one) =~= goals_at(gs, ps[start as int]));
                assert(ps[start as int].subrange(0, ps[start as int].len() as int) =~= ps[start as int]);
                assert(comparable(ps[start as int], positions_view(pos_in_partition@)[0]));
                assert(ps.subrange(start as int, start + 1) =~= seq![ps[start as int]]);
            }

            // Go over the positions until we find a position that is not comparable to p
            // Because all_positions is sorted we know that once we find a position that is not comparable
            // all subsequent positions will also not be comparable.
            // Moreover, all positions in the partition are related to p. p is the highest in the partition.
            p_index = p_index + 1;
            while p_index < n && MatchGoal::pos_comparable(p, &all_positions[p_index])
                invariant
                    start < p_index <= n,
                    n == all_positions@.len(),
                    ps == positions_view(all_positions@),
                    gs == goals_view(goals@),
                    p@ == ps[start as int],
                    positions_view(pos_in_partition@) == ps.subrange(start as int, p_index as int),
                    goals_view(goals_in_partition@) == goals_at_all(gs, positions_view(pos_in_partition@)),
                    forall|j: int|
                        0 <= j < pos_in_partition@.len() ==> comparable(
                            ps[start as int],
                            #[trigger] positions_view(pos_in_partition@)[j],
                        ),
                decreases n - p_index,
            {
                let ghost before_pos = positions_view(pos_in_partition@);
                let ghost before_goals = goals_view(goals_in_partition@);
                pos_in_partition.push(all_positions[p_index].clone());
                // Put the goals with position all_positions[p_index] in the partition
                let mut more = goals_at_position(&goals, &all_positions[p_index]);
                goals_in_partition.append(&mut more);
                proof {
                    assert(positions_view(pos_in_partition@) =~= before_pos.push(ps[p_index as int]));
                    assert(ps.subrange(start as int, p_index + 1) =~= ps.subrange(
                        start as int,
                        p_index as int,
                    ).push(ps[p_index as int]));
                    assert(positions_view(pos_in_partition@).drop_last() =~= before_pos);
                    assert(goals_view(goals_in_partition@) =~= before_goals + goals_at(gs, ps[p_index as int]));
                }
                p_index = p_index + 1;
            }
            let ghost before = partitions_view(partitions@);
            partitions.push((goals_in_partition, pos_in_partition));
            proof {
                let after = partitions_view(partitions@);
                assert(after =~= before.push(after[after.len() - 1]));
                assert(after.drop_last() =~= before);
                assert(ps.take(p_index as int) =~= ps.take(start as int) + ps.subrange(
                    start as int,
                    p_index as int,
                ));
                assert(after[after.len() - 1].1[0] == ps[start as int]);
                assert forall|i: int| 0 <= i < after.len() implies (#[trigger] after[i]).1.len() > 0
                    && after[i].0 == goals_at_all(gs, after[i].1) && forall|j: int|
                    0 <= j < after[i].1.len() ==> comparable(after[i].1[0], #[trigger] after[i].1[j]) by {
                    if i < before.len() {
                        assert(after[i] == before[i]);
                    }
                }
                assert forall|i: int| 0 <= i < after.len() - 1 implies !comparable(
                    (#[trigger] after[i]).1[0],
                    after[i + 1].1[0],
                ) by {
                    assert(after[i] == before[i]);
                    if i + 1 < before.len() {
                        assert(after[i + 1] == before[i + 1]);
                    }
                }
            }
        }
        proof {
            let parts = partitions_view(partitions@);
            assert(ps.take(n as int) =~= ps);
            assert(!has_root_goal(gs));
            assert(partition_positions(parts) == ps);
        }
        partitions
    }
}

impl MatchGoal {
    /// Whether both goals are the same.
    pub fn same(&self, other: &MatchGoal) -> (result: bool)
        ensures
            result == (self@ == other@),
    {
        let a = &self.announcement;
        let b = &other.announcement;
        if a.symbols_seen != b.symbols_seen || !a.position.same(&b.position) || !a.rule.same(&b.rule)
            || self.obligations.len() != other.obligations.len() {
            proof {
                if self@ == other@ {
                    assert(self@.obligations.len() == other@.obligations.len());
                }
            }
            return false;
        }
        let mut i: usize = 0;
        while i < self.obligations.len()
            invariant
                i <= self.obligations@.len(),
                self.obligations@.len() == other.obligations@.len(),
                forall|j: int| 0 <= j < i ==> self.obligations@[j]@ == other.obligations@[j]@,
            decreases self.obligations@.len() - i,
        {
            let o = &self.obligations[i];
            let p = &other.obligations[i];
            if !o.pattern.equals(&p.pattern) || !o.position.same(&p.position) {
                assert(self@.obligations[i as int] != other@.obligations[i as int]);
                return false;
            }
            i = i + 1;
        }
        assert(self@.obligations =~= other@.obligations);
        true
    }
}

/// Both sequences hold the same goals (as sets).
pub open spec fn same_goal_set(a: Seq<GoalModel>, b: Seq<GoalModel>) -> bool {
    forall|g: GoalModel| a.contains(g) <==> b.contains(g)
}

/// Whether every goal of `a` occurs in `b`.
fn goals_included(a: &Vec<MatchGoal>, b: &Vec<MatchGoal>) -> (result: bool)
    ensures
        result == forall|g: GoalModel| goals_view(a@).contains(g) ==> goals_view(b@).contains(g),
{
    let mut i: usize = 0;
    while i < a.len()
        invariant
            i <= a@.len(),
            forall|k: int| 0 <= k < i ==> goals_view(b@).contains(#[trigger] goals_view(a@)[k]),
        decreases a@.len() - i,
    {
        let mut found = false;
        let mut j: usize = 0;
        while j < b.len() && !found
            invariant
                j <= b@.len(),
                i < a@.len(),
                found ==> goals_view(b@).contains(goals_view(a@)[i as int]),
                !found ==> forall|l: int| 0 <= l < j ==> goals_view(b@)[l] != goals_view(a@)[i as int],
            decreases b@.len() - j,
        {
            assert(goals_view(b@)[j as int] == b@[j as int]@);
            assert(goals_view(a@)[i as int] == a@[i as int]@);
            if a[i].same(&b[j]) {
                found = true;
            }
            j = j + 1;
        }
        if !found {
            proof {
                assert forall|g: GoalModel| !(goals_view(a@).contains(g) ==> goals_view(b@).contains(g)) || g
                    != goals_view(a@)[i as int] by {
                }
                assert(goals_view(a@).contains(goals_view(a@)[i as int]));
            }
            return false;
        }
        i = i + 1;
    }
    proof {
        assert forall|g: GoalModel| goals_view(a@).contains(g) implies goals_view(b@).contains(g) by {
            let k = choose|k: int| 0 <= k < goals_view(a@).len() && goals_view(a@)[k] == g;
        }
    }
    true
}

/// Whether both vectors hold the same goals (as sets).
pub fn same_goals(a: &Vec<MatchGoal>, b: &Vec<MatchGoal>) -> (result: bool)
    ensures
        result == same_goal_set(goals_view(a@), goals_view(b@)),
{
    goals_included(a, b) && goals_included(b, a)
}

/// The rules of all goals are among `rules`.
pub open spec fn rules_of(gs: Seq<GoalModel>, rules: Seq<RuleModel>) -> bool {
    forall|k: int| 0 <= k < gs.len() ==> rules.contains(#[trigger] gs[k].announcement.rule)
}

/// The goals at a position are goals of `gs`.
proof fn lemma_goals_at_from(gs: Seq<GoalModel>, p: Seq<usize>)
    ensures
        forall|i: int| 0 <= i < goals_at(gs, p).len() ==> gs.contains(#[trigger] goals_at(gs, p)[i]),
    decreases gs.len(),
{
    if gs.len() > 0 {
        lemma_goals_at_from(gs.drop_last(), p);
        assert forall|i: int| 0 <= i < goals_at(gs, p).len() implies gs.contains(#[trigger] goals_at(gs, p)[i]) by {
            let rest = goals_at(gs.drop_last(), p);
            if i < rest.len() {
                assert(goals_at(gs, p)[i] == rest[i]);
                assert(gs.drop_last().contains(rest[i]));
                let j = choose|j: int| 0 <= j < gs.drop_last().len() && gs.drop_last()[j] == rest[i];
                assert(gs[j] == rest[i]);
            } else {
                assert(goals_at(gs, p)[i] == gs.last());
                assert(gs[gs.len() - 1] == gs.last());
            }
        }
    }
}

/// The goals at some positions are goals of `gs`.
pub proof fn lemma_goals_at_all_from(gs: Seq<GoalModel>, ps: Seq<Seq<usize>>)
    ensures
        forall|i: int| 0 <= i < goals_at_all(gs, ps).len() ==> gs.contains(#[trigger] goals_at_all(gs, ps)[i]),
    decreases ps.len(),
{
    if ps.len() > 0 {
        lemma_goals_at_all_from(gs, ps.drop_last());
        lemma_goals_at_from(gs, ps.last());
        let a = goals_at_all(gs, ps.drop_last());
        let b = goals_at(gs, ps.last());
        assert forall|i: int| 0 <= i < goals_at_all(gs, ps).len() implies gs.contains(
            #[trigger] goals_at_all(gs, ps)[i],
        ) by {
            if i < a.len() {
                assert(goals_at_all(gs, ps)[i] == a[i]);
            } else {
                assert(goals_at_all(gs, ps)[i] == b[i - a.len()]);
            }
        }
    }
}

/// The goals of a partition are goals of the partitioned goals, so their
/// rules are among the rules of those.
pub proof fn lemma_partition_rules(
    gs: Seq<GoalModel>,
    parts: Seq<(Seq<GoalModel>, Seq<Seq<usize>>)>,
    rules: Seq<RuleModel>,
)
    requires
        is_partition(gs, parts),
        rules_of(gs, rules),
    ensures
        forall|i: int| 0 <= i < parts.len() ==> rules_of((#[trigger] parts[i]).0, rules),
{
    assert forall|i: int| 0 <= i < parts.len() implies rules_of((#[trigger] parts[i]).0, rules) by {
        if !has_root_goal(gs) {
            lemma_goals_at_all_from(gs, parts[i].1);
            assert forall|k: int| 0 <= k < parts[i].0.len() implies rules.contains(
                #[trigger] parts[i].0[k].announcement.rule,
            ) by {
                assert(parts[i].0 == goals_at_all(gs, parts[i].1));
                assert(gs.contains(parts[i].0[k]));
                let j = choose|j: int| 0 <= j < gs.len() && gs[j] == parts[i].0[k];
                assert(rules.contains(gs[j].announcement.rule));
            }
        }
    }
}

} // verus!
