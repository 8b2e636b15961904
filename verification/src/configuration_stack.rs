use vstd::prelude::*;

use crate::announcement::EnhancedMatchAnnouncement;
use crate::automaton::{resolved_view, SetAutomaton};
use crate::position::ExplicitPosition;
use crate::term::{get_position, is_position, lemma_subterm_of_replace, replace_at, substitute, subterm_at, terms_view, ATerm, Term};

verus! {

/// A Configuration is part of the configuration stack/tree
/// It contains:
///     1. the index of a state
///     2. The difference of position compared to the parent configuration (None for the root).
///         Note that it stores a reference to a position. It references the position listed on
///         a transition of the set automaton.
/// The subterm at the position of the configuration is kept on the stack of terms.
#[derive(Debug)]
pub struct Configuration<'a> {
    pub state: usize,
    pub position: Option<&'a ExplicitPosition>,
}

/// Three types of side information. See the stack rewriter on how they are used.
#[derive(Debug)]
pub enum SideInfoType<'a> {
    SideBranch(&'a [(ExplicitPosition, usize)]),
    DelayedRewriteRule(&'a EnhancedMatchAnnouncement),
    EquivalenceAndConditionCheck(&'a EnhancedMatchAnnouncement),
}

/// SideInfo stores additional information of a configuration.
/// It stores an index of the corresponding configuration on the configuration stack.
#[derive(Debug)]
pub struct SideInfo<'a> {
    pub corresponding_configuration: usize,
    pub info: SideInfoType<'a>,
}

/// A configuration stack. The first element is the root of the configuration tree.
#[derive(Debug)]
pub struct ConfigurationStack<'a> {
    pub stack: Vec<Configuration<'a>>,
    /// The subterm of each configuration.
    pub terms: Vec<ATerm>,
    /// Separate stack with extra information on some configurations
    pub side_branch_stack: Vec<SideInfo<'a>>,
    /// Current node. Becomes None when the configuration tree is completed
    pub current_node: Option<usize>,
    /// Upon applying a rewrite rule we do not immediately update the subterm stored in every configuration on the stack.
    /// That would be very expensive. Instead we ensure that the subterm in the current_node is always up to date.
    /// oldest_reliable_subterm is an index to the highest configuration in the tree that is up to date.
    pub oldest_reliable_subterm: usize,
}

/// Every configuration but the root has a position, which is a position of
/// the subterm of its parent.
pub open spec fn positions_fit(stack: Seq<Configuration>, terms: Seq<Term>) -> bool {
    forall|i: int|
        1 <= i < stack.len() ==> (#[trigger] stack[i]).position is Some && is_position(
            terms[i - 1],
            stack[i].position->0@,
        )
}

/// The side information after removing that of the configurations from
/// `end` on (`including`) or after `end`.
pub open spec fn rolled_back(side: Seq<SideInfo>, end: int, including: bool) -> Seq<SideInfo>
    decreases side.len(),
{
    if side.len() == 0 {
        side
    } else {
        let last = side.last().corresponding_configuration;
        if last < end || (last <= end && !including) {
            side
        } else {
            rolled_back(side.drop_last(), end, including)
        }
    }
}

/// The subterm of configuration `end` once the subterm `sub` of
/// configuration `up` is placed in each parent on the way down to `end`, at
/// the position of the child.
pub open spec fn lifted(stack: Seq<Configuration>, terms: Seq<Term>, up: int, end: int, sub: Term) -> Term
    decreases up - end,
{
    if up <= end {
        sub
    } else {
        let parent = match stack[up].position {
            None => sub,
            Some(p) => replace_at(terms[up - 1], p@, sub),
        };
        lifted(stack, terms, up - 1, end, parent)
    }
}

/// Lifting down to the parent of configuration `e` places the subterm
/// lifted to `e` in the term of the parent, at the position of `e`.
pub proof fn lemma_lifted_down(stack: Seq<Configuration>, terms: Seq<Term>, up: int, e: int, sub: Term)
    requires
        1 <= e <= up,
        stack[e].position is Some,
    ensures
        lifted(stack, terms, up, e - 1, sub) == replace_at(terms[e - 1], stack[e].position->0@, lifted(stack, terms, up, e, sub)),
    decreases up - e,
{
    let parent = match stack[up].position {
        None => sub,
        Some(p) => replace_at(terms[up - 1], p@, sub),
    };
    assert(lifted(stack, terms, up, e - 1, sub) == lifted(stack, terms, up - 1, e - 1, parent));
    if e < up {
        lemma_lifted_down(stack, terms, up - 1, e, parent);
        assert(lifted(stack, terms, up, e, sub) == lifted(stack, terms, up - 1, e, parent));
    } else {
        assert(lifted(stack, terms, up, e, sub) == sub);
        assert(lifted(stack, terms, up - 1, e - 1, parent) == parent);
    }
}

/// Rolling back keeps a prefix of the side information.
pub proof fn lemma_rolled_back_prefix(side: Seq<SideInfo>, end: int, including: bool)
    ensures
        rolled_back(side, end, including).len() <= side.len(),
        forall|i: int|
            0 <= i < rolled_back(side, end, including).len() ==> #[trigger] rolled_back(side, end, including)[i]
                == side[i],
        rolled_back(side, end, including).len() > 0 ==> rolled_back(side, end, including).last().corresponding_configuration
            < end || (rolled_back(side, end, including).last().corresponding_configuration <= end && !including),
    decreases side.len(),
{
    if side.len() > 0 {
        let last = side.last().corresponding_configuration;
        if !(last < end || (last <= end && !including)) {
            lemma_rolled_back_prefix(side.drop_last(), end, including);
        }
    }
}

/// The model of side information: the remaining destinations of a
/// hypertransition, a rewrite rule to apply later, or a rewrite rule whose
/// equivalence classes and conditions are still to be checked.
pub enum SideModel {
    Branch(Seq<(Seq<usize>, usize)>),
    Delayed(EnhancedMatchAnnouncement),
    Check(EnhancedMatchAnnouncement),
}

/// The model of a configuration stack: the state and the position of each
/// configuration, the subterm of each, the side information with the index
/// of its configuration, the current node and the oldest reliable subterm.
#[verifier::ext_equal]
pub struct StackModel {
    pub configs: Seq<(usize, Option<Seq<usize>>)>,
    pub terms: Seq<Term>,
    pub side: Seq<(usize, SideModel)>,
    pub current: Option<usize>,
    pub reliable: usize,
}

/// The model of a configuration.
pub open spec fn config_model(c: Configuration) -> (usize, Option<Seq<usize>>) {
    (
        c.state,
        match c.position {
            Some(p) => Some(p@),
            None => None,
        },
    )
}

/// The model of side information.
pub open spec fn side_model(s: SideInfo) -> (usize, SideModel) {
    (
        s.corresponding_configuration,
        match s.info {
            SideInfoType::SideBranch(sb) => SideModel::Branch(resolved_view(sb@)),
            SideInfoType::DelayedRewriteRule(e) => SideModel::Delayed(*e),
            SideInfoType::EquivalenceAndConditionCheck(e) => SideModel::Check(*e),
        },
    )
}

/// The stack after growing configuration `c` by the first destination of
/// `dests`: the others go on the side as a branch.
pub open spec fn grown(m: StackModel, c: int, dests: Seq<(Seq<usize>, usize)>) -> StackModel {
    StackModel {
        configs: m.configs.push((dests[0].1, Some(dests[0].0))),
        terms: m.terms.push(subterm_at(m.terms[c], dests[0].0)->0),
        side: if dests.len() > 1 {
            m.side.push((c as usize, SideModel::Branch(dests.subrange(1, dests.len() as int))))
        } else {
            m.side
        },
        current: Some((c + 1) as usize),
        reliable: m.reliable,
    }
}

/// The stack after pruning back to configuration `depth` and placing `sub`
/// at the label `label` of its state.
pub open spec fn pruned(m: StackModel, depth: int, label: Seq<usize>, sub: Term) -> StackModel {
    StackModel {
        configs: m.configs.take(depth + 1),
        terms: m.terms.take(depth + 1).update(depth, replace_at(m.terms[depth], label, sub)),
        side: rolled_back_model(m.side, depth, true),
        current: Some(depth as usize),
        reliable: depth as usize,
    }
}

/// The side information after removing that of the configurations from
/// `end` on (`including`) or after `end`.
pub open spec fn rolled_back_model(side: Seq<(usize, SideModel)>, end: int, including: bool) -> Seq<(usize, SideModel)>
    decreases side.len(),
{
    if side.len() == 0 {
        side
    } else {
        let last = side.last().0;
        if last < end || (last <= end && !including) {
            side
        } else {
            rolled_back_model(side.drop_last(), end, including)
        }
    }
}

/// The subterm of configuration `end` once the subterm `sub` of
/// configuration `up` is placed in each parent on the way down to `end`.
pub open spec fn lifted_model(configs: Seq<(usize, Option<Seq<usize>>)>, terms: Seq<Term>, up: int, end: int, sub: Term) -> Term
    decreases up - end,
{
    if up <= end {
        sub
    } else {
        let parent = match configs[up].1 {
            None => sub,
            Some(p) => replace_at(terms[up - 1], p, sub),
        };
        lifted_model(configs, terms, up - 1, end, parent)
    }
}

/// The stack after jumping back to configuration `depth`.
pub open spec fn jumped_back(m: StackModel, depth: int) -> StackModel {
    let up = m.reliable as int;
    StackModel {
        configs: m.configs.take(depth + 1),
        terms: if up == 0 || depth >= up {
            m.terms.take(depth + 1)
        } else {
            m.terms.take(depth + 1).update(depth, lifted_model(m.configs, m.terms, up, depth, m.terms[up]))
        },
        side: rolled_back_model(m.side, depth, false),
        current: Some(depth as usize),
        reliable: if up == 0 || depth >= up {
            m.reliable
        } else {
            depth as usize
        },
    }
}

/// The term at the root once the reliable subterm is placed in each parent.
pub open spec fn final_term(m: StackModel) -> Term {
    if m.reliable == 0 {
        m.terms[0]
    } else {
        lifted_model(m.configs, m.terms, m.reliable as int, 0, m.terms[m.reliable as int])
    }
}

/// The configurations, subterms and side information of configuration
/// stacks agree with their models.
proof fn lemma_rolled_back_model(side: Seq<SideInfo>, end: int, including: bool)
    ensures
        rolled_back(side, end, including).map_values(|s: SideInfo| side_model(s)) == rolled_back_model(
            side.map_values(|s: SideInfo| side_model(s)),
            end,
            including,
        ),
    decreases side.len(),
{
    let ms = side.map_values(|s: SideInfo| side_model(s));
    if side.len() > 0 {
        assert(ms.last() == side_model(side.last()));
        assert(ms.drop_last() =~= side.drop_last().map_values(|s: SideInfo| side_model(s)));
        lemma_rolled_back_model(side.drop_last(), end, including);
    }
}

/// Lifting agrees with its model.
proof fn lemma_lifted_model(stack: Seq<Configuration>, terms: Seq<Term>, up: int, end: int, sub: Term)
    requires
        up < stack.len(),
        0 <= end,
    ensures
        lifted(stack, terms, up, end, sub) == lifted_model(
            stack.map_values(|c: Configuration| config_model(c)),
            terms,
            up,
            end,
            sub,
        ),
    decreases up - end,
{
    if up > end {
        let cm = stack.map_values(|c: Configuration| config_model(c));
        let parent = match stack[up].position {
            None => sub,
            Some(p) => replace_at(terms[up - 1], p@, sub),
        };
        assert(cm[up] == config_model(stack[up]));
        let parent_model = match cm[up].1 {
            None => sub,
            Some(p) => replace_at(terms[up - 1], p, sub),
        };
        assert(parent == parent_model);
        lemma_lifted_model(stack, terms, up - 1, end, parent);
    }
}

impl<'a> ConfigurationStack<'a> {
    /// The model of the stack.
    pub open spec fn model(&self) -> StackModel {
        StackModel {
            configs: self.stack@.map_values(|c: Configuration| config_model(c)),
            terms: terms_view(self.terms@),
            side: self.side_branch_stack@.map_values(|s: SideInfo| side_model(s)),
            current: self.current_node,
            reliable: self.oldest_reliable_subterm,
        }
    }

    /// The stack and its terms match, the current node is the top of the
    /// stack, the side information is ordered by configuration and belongs to
    /// configurations on the stack, and the positions of the configurations
    /// fit the subterms of their parents.
    pub open spec fn wf(&self) -> bool {
        &&& self.stack@.len() == self.terms@.len()
        &&& self.stack@.len() >= 1
        &&& (self.current_node matches Some(c) ==> c + 1 == self.stack@.len())
        &&& self.oldest_reliable_subterm < self.stack@.len()
        &&& forall|i: int|
            0 <= i < self.side_branch_stack@.len() ==> (#[trigger] self.side_branch_stack@[i]).corresponding_configuration
                < self.stack@.len()
        &&& forall|i: int, j: int|
            0 <= i <= j < self.side_branch_stack@.len() ==> (#[trigger] self.side_branch_stack@[i]).corresponding_configuration
                <= (#[trigger] self.side_branch_stack@[j]).corresponding_configuration
        &&& positions_fit(self.stack@, terms_view(self.terms@))
    }

    /// Initialise the stack with one Configuration containing 'term' and the initial state of the set automaton
    pub fn new(state: usize, term: ATerm) -> (result: ConfigurationStack<'a>)
        ensures
            result.wf(),
            result.stack@ == seq![Configuration { state, position: None }],
            terms_view(result.terms@) == seq![term@],
            result.side_branch_stack@.len() == 0,
            result.current_node == Some(0usize),
            result.oldest_reliable_subterm == 0,
    {
        let mut conf_list = ConfigurationStack {
            stack: Vec::new(),
            side_branch_stack: Vec::new(),
            terms: Vec::new(),
            current_node: Some(0),
            oldest_reliable_subterm: 0,
        };
        conf_list.stack.push(Configuration { state, position: None });
        conf_list.terms.push(term);
        assert(terms_view(conf_list.terms@) =~= seq![term@]);
        assert(conf_list.stack@ =~= seq![Configuration { state, position: None }]);
        conf_list
    }

    /// Obtain the first unexplored node of the stack, which is just the top of the stack.
    pub fn get_unexplored_leaf(&self) -> (result: Option<usize>)
        ensures
            result == self.current_node,
    {
        self.current_node
    }

    /// Returns the lowest configuration in the tree with SideInfo
    pub fn get_prev_with_side_info(&self) -> (result: Option<usize>)
        ensures
            result == (if self.side_branch_stack@.len() == 0 {
                None
            } else {
                Some(self.side_branch_stack@.last().corresponding_configuration)
            }),
    {
        if self.side_branch_stack.len() == 0 {
            None
        } else {
            Some(self.side_branch_stack[self.side_branch_stack.len() - 1].corresponding_configuration)
        }
    }

    /// Grow a Configuration with index c. tr_slice contains the hypertransition to possibly multiple states
    pub fn grow(&mut self, c: usize, tr_slice: &'a [(ExplicitPosition, usize)])
        requires
            old(self).wf(),
            c + 1 == old(self).stack@.len(),
            tr_slice@.len() > 0,
            is_position(old(self).terms@[c as int]@, tr_slice@[0].0@),
        ensures
            final(self).wf(),
            final(self).stack@ == old(self).stack@.push(
                Configuration { state: tr_slice@[0].1, position: Some(&tr_slice@[0].0) },
            ),
            terms_view(final(self).terms@) == terms_view(old(self).terms@).push(
                subterm_at(old(self).terms@[c as int]@, tr_slice@[0].0@)->0,
            ),
            tr_slice@.len() == 1 ==> final(self).side_branch_stack@ == old(self).side_branch_stack@,
            tr_slice@.len() > 1 ==> ({
                &&& final(self).side_branch_stack@.len() == old(self).side_branch_stack@.len() + 1
                &&& final(self).side_branch_stack@.drop_last() == old(self).side_branch_stack@
                &&& final(self).side_branch_stack@.last().corresponding_configuration == c
                &&& final(self).side_branch_stack@.last().info matches SideInfoType::SideBranch(rest)
                &&& rest@ == tr_slice@.subrange(1, tr_slice@.len() as int)
            }),
            final(self).current_node == Some((c + 1) as usize),
            final(self).oldest_reliable_subterm == old(self).oldest_reliable_subterm,
            final(self).model() == grown(old(self).model(), c as int, resolved_view(tr_slice@)),
    {
        // Pick the first transition to grow the stack
        let (pos, des) = &tr_slice[0];
        let next: usize = self.stack.len();

        // If there are more transitions store the remaining on the side stack
        if tr_slice.len() > 1 {
            let rest = vstd::slice::slice_subrange(tr_slice, 1, tr_slice.len());
            let ghost before = self.side_branch_stack@;
            self.side_branch_stack.push(SideInfo { corresponding_configuration: c, info: SideInfoType::SideBranch(rest) });
            assert(self.side_branch_stack@.drop_last() =~= before);
        }

        // Create a new configuration and push it onto the stack
        let new_leaf = Configuration { state: *des, position: Some(pos) };
        self.stack.push(new_leaf);

        // Push the term belonging to the leaf.
        let t = get_position(&self.terms[c], pos);
        let ghost before = terms_view(self.terms@);
        self.terms.push(t);
        assert(terms_view(self.terms@) =~= before.push(t@));
        self.current_node = Some(next);
        proof {
            let om = old(self).model();
            let nm = self.model();
            let ds = resolved_view(tr_slice@);
            assert(ds[0] == (tr_slice@[0].0@, tr_slice@[0].1));
            assert(nm.configs =~= om.configs.push((ds[0].1, Some(ds[0].0))));
            if tr_slice@.len() > 1 {
                assert(resolved_view(tr_slice@.subrange(1, tr_slice@.len() as int)) =~= ds.subrange(1, ds.len() as int));
                assert(nm.side =~= om.side.push((c, SideModel::Branch(ds.subrange(1, ds.len() as int)))));
            } else {
                assert(nm.side =~= om.side);
            }
            assert(nm =~= grown(om, c as int, ds));
        }
        assert(positions_fit(self.stack@, terms_view(self.terms@))) by {
            assert forall|i: int| 1 <= i < self.stack@.len() implies (#[trigger] self.stack@[i]).position is Some
                && is_position(terms_view(self.terms@)[i - 1], self.stack@[i].position->0@) by {
                if i < self.stack@.len() - 1 {
                    assert(self.stack@[i] == old(self).stack@[i]);
                    assert(terms_view(self.terms@)[i - 1] == terms_view(old(self).terms@)[i - 1]);
                }
            }
        }
    }

    /// When rewriting prune "prunes" the configuration stack to the place where the first symbol
    /// of the matching rewrite rule was observed (at index 'depth').
    pub fn prune(&mut self, automaton: &SetAutomaton, depth: usize, new_subterm: ATerm)
        requires
            old(self).wf(),
            depth < old(self).stack@.len(),
            old(self).stack@[depth as int].state < automaton.states@.len(),
            is_position(
                old(self).terms@[depth as int]@,
                automaton.states@[old(self).stack@[depth as int].state as int].label@,
            ),
        ensures
            final(self).wf(),
            final(self).current_node == Some(depth),
            final(self).stack@ == old(self).stack@.take(depth + 1),
            terms_view(final(self).terms@) == terms_view(old(self).terms@).take(depth + 1).update(
                depth as int,
                replace_at(
                    old(self).terms@[depth as int]@,
                    automaton.states@[old(self).stack@[depth as int].state as int].label@,
                    new_subterm@,
                ),
            ),
            final(self).side_branch_stack@ == rolled_back(old(self).side_branch_stack@, depth as int, true),
            final(self).oldest_reliable_subterm == depth,
            final(self).model() == pruned(
                old(self).model(),
                depth as int,
                automaton.states@[old(self).stack@[depth as int].state as int].label@,
                new_subterm@,
            ),
    {
        self.current_node = Some(depth);
        let length: usize = self.stack.len();
        assert(depth + 1 <= length);

        // Reroll the configuration stack by truncating the Vec (which is a constant time operation)
        self.stack.truncate(depth + 1);
        self.terms.truncate(depth + 1);

        // Remove side info for the deleted configurations
        self.roll_back_side_info_stack(depth, true);

        // Update the subterm stored at the prune point.
        // Note that the subterm stored earlier may not have been up to date. We replace it with a term that is up to date
        let label = automaton.states[self.stack[depth].state].label.to_vec();
        let subterm = substitute(&self.terms[depth], new_subterm, label.as_slice());
        let ghost before = terms_view(self.terms@);
        self.terms.set(depth, subterm);
        assert(terms_view(self.terms@) =~= before.update(depth as int, subterm@));
        assert(terms_view(self.terms@) =~= terms_view(old(self).terms@).take(depth + 1).update(
            depth as int,
            subterm@,
        ));
        self.oldest_reliable_subterm = depth;
        proof {
            let om = old(self).model();
            let nm = self.model();
            lemma_rolled_back_model(old(self).side_branch_stack@, depth as int, true);
            assert(nm.configs =~= om.configs.take(depth + 1));
            assert(terms_view(old(self).terms@)[depth as int] == old(self).terms@[depth as int]@);
            assert(nm =~= pruned(
                om,
                depth as int,
                automaton.states@[old(self).stack@[depth as int].state as int].label@,
                new_subterm@,
            ));
            lemma_rolled_back_prefix(old(self).side_branch_stack@, depth as int, true);
            assert(positions_fit(self.stack@, terms_view(self.terms@))) by {
                assert forall|i: int| 1 <= i < self.stack@.len() implies (#[trigger] self.stack@[i]).position is Some
                    && is_position(terms_view(self.terms@)[i - 1], self.stack@[i].position->0@) by {
                    assert(self.stack@[i] == old(self).stack@[i]);
                    assert(terms_view(self.terms@)[i - 1] == terms_view(old(self).terms@)[i - 1]);
                }
            }
        }
    }

    /// Removes side info for configurations beyond configuration index 'end'.
    /// If 'including' is true the side info for the configuration with index 'end' is also deleted.
    pub fn roll_back_side_info_stack(&mut self, end: usize, including: bool)
        ensures
            final(self).side_branch_stack@ == rolled_back(old(self).side_branch_stack@, end as int, including),
            final(self).stack@ == old(self).stack@,
            final(self).terms@ == old(self).terms@,
            final(self).current_node == old(self).current_node,
            final(self).oldest_reliable_subterm == old(self).oldest_reliable_subterm,
    {
        loop
            invariant_except_break
                rolled_back(self.side_branch_stack@, end as int, including) == rolled_back(
                    old(self).side_branch_stack@,
                    end as int,
                    including,
                ),
            invariant
                self.stack@ == old(self).stack@,
                self.terms@ == old(self).terms@,
                self.current_node == old(self).current_node,
                self.oldest_reliable_subterm == old(self).oldest_reliable_subterm,
            ensures
                self.side_branch_stack@ == rolled_back(
                    old(self).side_branch_stack@,
                    end as int,
                    including,
                ),
            decreases self.side_branch_stack@.len(),
        {
            if self.side_branch_stack.len() == 0 {
                break;
            }
            let last = self.side_branch_stack[self.side_branch_stack.len() - 1].corresponding_configuration;
            if last < end || (last <= end && !including) {
                break;
            }
            let ghost before = self.side_branch_stack@;
            self.side_branch_stack.pop();
            assert(self.side_branch_stack@ =~= before.drop_last());
        }
    }

    /// Roll back the configuration stack to level 'depth'.
    /// This function is used exclusively when a subtree has been explored and no matches have been found.
    pub fn jump_back(&mut self, depth: usize)
        requires
            old(self).wf(),
            depth < old(self).stack@.len(),
        ensures
            final(self).wf(),
            final(self).current_node == Some(depth),
            final(self).stack@ == old(self).stack@.take(depth + 1),
            final(self).side_branch_stack@ == rolled_back(old(self).side_branch_stack@, depth as int, false),
            ({
                let up = old(self).oldest_reliable_subterm as int;
                let ts = terms_view(old(self).terms@);
                if up == 0 || depth >= up {
                    terms_view(final(self).terms@) == ts.take(depth + 1)
                        && final(self).oldest_reliable_subterm == old(self).oldest_reliable_subterm
                } else {
                    terms_view(final(self).terms@) == ts.take(depth + 1).update(
                        depth as int,
                        lifted(old(self).stack@, ts, up, depth as int, ts[up]),
                    ) && final(self).oldest_reliable_subterm == depth
                }
            }),
            final(self).model() == jumped_back(old(self).model(), depth as int),
    {
        // Updated subterms may have to be propagated up the configuration tree
        self.integrate_updated_subterms(depth, true);
        let ghost mid = terms_view(self.terms@);
        self.current_node = Some(depth);
        let length: usize = self.stack.len();
        assert(depth + 1 <= length);
        self.stack.truncate(depth + 1);
        self.terms.truncate(depth + 1);
        assert(terms_view(self.terms@) =~= mid.take(depth + 1));
        self.roll_back_side_info_stack(depth, false);
        proof {
            let om = old(self).model();
            let nm = self.model();
            lemma_rolled_back_model(old(self).side_branch_stack@, depth as int, false);
            assert(nm.configs =~= om.configs.take(depth + 1));
            let up0 = old(self).oldest_reliable_subterm as int;
            if !(up0 == 0 || depth >= up0) {
                lemma_lifted_model(old(self).stack@, terms_view(old(self).terms@), up0, depth as int, terms_view(old(self).terms@)[up0]);
            }
            lemma_rolled_back_prefix(old(self).side_branch_stack@, depth as int, false);
            let up = old(self).oldest_reliable_subterm as int;
            let ts = terms_view(old(self).terms@);
            if !(up == 0 || depth >= up) {
                assert(terms_view(self.terms@) =~= ts.take(depth + 1).update(
                    depth as int,
                    lifted(old(self).stack@, ts, up, depth as int, ts[up]),
                ));
            } else {
                assert(terms_view(self.terms@) =~= ts.take(depth + 1));
            }
            assert(positions_fit(self.stack@, terms_view(self.terms@))) by {
                assert forall|i: int| 1 <= i < self.stack@.len() implies (#[trigger] self.stack@[i]).position is Some
                    && is_position(terms_view(self.terms@)[i - 1], self.stack@[i].position->0@) by {
                    assert(self.stack@[i] == old(self).stack@[i]);
                    assert(terms_view(self.terms@)[i - 1] == mid[i - 1]);
                }
            }
        }
    }

    /// When going back up the configuration tree the subterms stored in the configuration tree must be updated
    /// This function ensures that the Configuration at depth 'end' is made up to date.
    /// If store_intermediate is true, all configurations below 'end' are also up to date.
    pub fn integrate_updated_subterms(&mut self, end: usize, store_intermediate: bool)
        requires
            old(self).wf(),
            end < old(self).stack@.len(),
        ensures
            final(self).wf(),
            final(self).stack@ == old(self).stack@,
            final(self).side_branch_stack@ == old(self).side_branch_stack@,
            final(self).current_node == old(self).current_node,
            ({
                let up = old(self).oldest_reliable_subterm as int;
                let ts = terms_view(old(self).terms@);
                if up == 0 || end >= up {
                    final(self).terms@ == old(self).terms@ && final(self).oldest_reliable_subterm
                        == old(self).oldest_reliable_subterm
                } else {
                    &&& final(self).oldest_reliable_subterm == end
                    &&& terms_view(final(self).terms@).len() == ts.len()
                    &&& terms_view(final(self).terms@)[end as int] == lifted(old(self).stack@, ts, up, end as int, ts[up])
                    &&& forall|i: int|
                        0 <= i < ts.len() && i != end ==> #[trigger] terms_view(final(self).terms@)[i] == if store_intermediate
                            && end < i <= up {
                            lifted(old(self).stack@, ts, up, i, ts[up])
                        } else {
                            ts[i]
                        }
                }
            }),
    {
        // Check if there is anything to do. Start updating from self.oldest_reliable_subterm
        let mut up_to_date = self.oldest_reliable_subterm;
        if up_to_date == 0 || end >= up_to_date {
            return;
        }
        let ghost up = up_to_date as int;
        let ghost ts = terms_view(old(self).terms@);
        let ghost stack = self.stack@;
        let mut subterm = self.terms[up_to_date].copy();

        // Go over the configurations one by one until we reach 'end'
        while up_to_date > end
            invariant
                self.wf(),
                end < up_to_date <= up || up_to_date == end,
                end <= up_to_date,
                up < ts.len(),
                self.stack@ == stack,
                stack == old(self).stack@,
                self.side_branch_stack@ == old(self).side_branch_stack@,
                self.current_node == old(self).current_node,
                self.oldest_reliable_subterm == old(self).oldest_reliable_subterm,
                terms_view(self.terms@).len() == ts.len(),
                subterm@ == lifted(stack, ts, up, up_to_date as int, ts[up]),
                forall|i: int|
                    0 <= i < ts.len() ==> #[trigger] terms_view(self.terms@)[i] == if store_intermediate
                        && up_to_date <= i < up {
                        lifted(stack, ts, up, i, ts[up])
                    } else {
                        ts[i]
                    },
            decreases up_to_date,
        {
            let ghost u = up_to_date as int;
            // If the position is not deepened nothing needs to be done, otherwise substitute on the position stored in the configuration.
            assert(terms_view(self.terms@)[u - 1] == ts[u - 1]);
            assert(stack[u].position is Some && is_position(ts[u - 1], stack[u].position->0@));
            let p = self.stack[up_to_date].position.unwrap().to_vec();
            let next = substitute(&self.terms[up_to_date - 1], subterm, p.as_slice());
            proof {
                lemma_lifted_down(stack, ts, up, u, ts[up]);
                lemma_subterm_of_replace(ts[u - 1], stack[u].position->0@, lifted(stack, ts, up, u, ts[up]));
            }
            subterm = next;
            up_to_date = up_to_date - 1;
            if store_intermediate {
                let ghost before = terms_view(self.terms@);
                self.terms.set(up_to_date, subterm.copy());
                assert(terms_view(self.terms@) =~= before.update(u - 1, subterm@));
                proof {
                    assert(positions_fit(self.stack@, terms_view(self.terms@))) by {
                        assert forall|i: int| 1 <= i < self.stack@.len() implies (#[trigger] self.stack@[i]).position is Some
                            && is_position(terms_view(self.terms@)[i - 1], self.stack@[i].position->0@) by {
                            if i - 1 != u - 1 {
                                assert(terms_view(self.terms@)[i - 1] == before[i - 1]);
                            } else {
                                assert(terms_view(self.terms@)[u - 1] == replace_at(
                                    ts[u - 1],
                                    stack[u].position->0@,
                                    lifted(stack, ts, up, u, ts[up]),
                                ));
                            }
                        }
                    }
                }
            }
        }
        self.oldest_reliable_subterm = up_to_date;
        let ghost before = terms_view(self.terms@);
        self.terms.set(up_to_date, subterm);
        assert(terms_view(self.terms@) =~= before.update(end as int, lifted(stack, ts, up, end as int, ts[up])));
        proof {
            assert(positions_fit(self.stack@, terms_view(self.terms@))) by {
                assert forall|i: int| 1 <= i < self.stack@.len() implies (#[trigger] self.stack@[i]).position is Some
                    && is_position(terms_view(self.terms@)[i - 1], self.stack@[i].position->0@) by {
                    if i - 1 != end {
                        assert(terms_view(self.terms@)[i - 1] == before[i - 1]);
                    } else {
                        let e = end as int;
                        lemma_lifted_down(stack, ts, up, e + 1, ts[up]);
                        lemma_subterm_of_replace(ts[e], stack[e + 1].position->0@, lifted(stack, ts, up, e + 1, ts[up]));
                    }
                }
            }
        }
    }

    /// Final term computed by integrating all subterms up to the root configuration
    pub fn compute_final_term(&mut self) -> (result: ATerm)
        requires
            old(self).wf(),
        ensures
            final(self).wf(),
            result@ == (if old(self).oldest_reliable_subterm == 0 {
                old(self).terms@[0]@
            } else {
                lifted(
                    old(self).stack@,
                    terms_view(old(self).terms@),
                    old(self).oldest_reliable_subterm as int,
                    0,
                    old(self).terms@[old(self).oldest_reliable_subterm as int]@,
                )
            }),
            result@ == final_term(old(self).model()),
    {
        proof {
            let up = old(self).oldest_reliable_subterm as int;
            assert(terms_view(old(self).terms@)[up] == old(self).terms@[up]@);
            assert(terms_view(old(self).terms@)[0] == old(self).terms@[0]@);
            if up != 0 {
                lemma_lifted_model(old(self).stack@, terms_view(old(self).terms@), up, 0, old(self).terms@[up]@);
            }
        }
        self.jump_back(0);
        assert(terms_view(self.terms@)[0] == self.terms@[0]@);
        self.terms[0].copy()
    }

    /// Returns a SideInfoType object if there is side info for the configuration with index 'leaf_index'
    pub fn pop_side_branch_leaf(stack: &mut Vec<SideInfo<'a>>, leaf_index: usize) -> (result: Option<SideInfoType<'a>>)
        ensures
            old(stack)@.len() > 0 && old(stack)@.last().corresponding_configuration == leaf_index ==> final(stack)@
                == old(stack)@.drop_last() && result == Some(old(stack)@.last().info),
            !(old(stack)@.len() > 0 && old(stack)@.last().corresponding_configuration == leaf_index)
                ==> final(stack)@ == old(stack)@ && result is None,
    {
        let should_pop = if stack.len() == 0 {
            false
        } else {
            stack[stack.len() - 1].corresponding_configuration == leaf_index
        };
        if should_pop {
            let si = stack.pop().unwrap();
            Some(si.info)
        } else {
            None
        }
    }
}

} // verus!
