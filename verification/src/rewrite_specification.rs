use vstd::prelude::*;

use crate::term::{ATerm, Term};

verus! {

/// The model of a condition.
pub struct ConditionModel {
    pub lhs: Term,
    pub rhs: Term,
    pub equality: bool,
}

/// The model of a rewrite rule.
pub struct RuleModel {
    pub conditions: Seq<ConditionModel>,
    pub lhs: Term,
    pub rhs: Term,
}

/// Either lhs == rhs or lhs != rhs depending on equality being true.
#[derive(Debug)]
pub struct Condition {
    pub lhs: ATerm,
    pub rhs: ATerm,
    pub equality: bool,
}

/// A rewrite rule `conditions -> lhs = rhs`.
#[derive(Debug)]
pub struct Rule {
    /// A conjunction of clauses
    pub conditions: Vec<Condition>,
    pub lhs: ATerm,
    pub rhs: ATerm,
}

/// A rewrite specification contains the bare info we need for rewriting (in particular no type information).
#[derive(Debug)]
pub struct RewriteSpecification {
    pub rewrite_rules: Vec<Rule>,
    /// The constructors with their arity.
    pub constructors: Vec<(usize, usize)>,
}

impl Condition {
    /// The model of this condition.
    pub open spec fn view(&self) -> ConditionModel {
        ConditionModel { lhs: self.lhs@, rhs: self.rhs@, equality: self.equality }
    }

    /// Returns a copy of this condition.
    pub fn copy(&self) -> (result: Condition)
        ensures
            result@ == self@,
    {
        Condition { lhs: self.lhs.copy(), rhs: self.rhs.copy(), equality: self.equality }
    }
}

impl Clone for Condition {
    fn clone(&self) -> (result: Condition)
        ensures
            result@ == self@,
    {
        self.copy()
    }
}

/// The models of a sequence of conditions.
pub open spec fn conditions_view(s: Seq<Condition>) -> Seq<ConditionModel> {
    s.map_values(|c: Condition| c@)
}

impl Rule {
    /// The model of this rule.
    pub open spec fn view(&self) -> RuleModel {
        RuleModel { conditions: conditions_view(self.conditions@), lhs: self.lhs@, rhs: self.rhs@ }
    }

    /// Returns a copy of this rule.
    pub fn copy(&self) -> (result: Rule)
        ensures
            result@ == self@,
    {
        let mut conditions: Vec<Condition> = Vec::new();
        let mut i: usize = 0;
        while i < self.conditions.len()
            invariant
                i <= self.conditions.len(),
                conditions@.len() == i,
                forall|j: int| 0 <= j < i ==> (#[trigger] conditions@[j])@ == self.conditions@[j]@,
            decreases self.conditions.len() - i,
        {
            conditions.push(self.conditions[i].copy());
            i = i + 1;
        }
        let result = Rule { conditions, lhs: self.lhs.copy(), rhs: self.rhs.copy() };
        assert(conditions_view(result.conditions@) =~= conditions_view(self.conditions@));
        result
    }
}

/// The models of a sequence of rules.
pub open spec fn rules_view(s: Seq<Rule>) -> Seq<RuleModel> {
    s.map_values(|r: Rule| r@)
}

impl Clone for Rule {
    fn clone(&self) -> (result: Rule)
        ensures
            result@ == self@,
    {
        self.copy()
    }
}

impl Condition {
    /// Whether both conditions are the same.
    pub fn same(&self, other: &Condition) -> (result: bool)
        ensures
            result == (self@ == other@),
    {
        self.equality == other.equality && self.lhs.equals(&other.lhs) && self.rhs.equals(&other.rhs)
    }
}

impl Rule {
    /// Whether both rules are the same.
    pub fn same(&self, other: &Rule) -> (result: bool)
        ensures
            result == (self@ == other@),
    {
        if !self.lhs.equals(&other.lhs) || !self.rhs.equals(&other.rhs) || self.conditions.len()
            != other.conditions.len() {
            proof {
                if self@ == other@ {
                    assert(conditions_view(self.conditions@).len() == conditions_view(other.conditions@).len());
                }
            }
            return false;
        }
        let mut i: usize = 0;
        while i < self.conditions.len()
            invariant
                i <= self.conditions@.len(),
                self.conditions@.len() == other.conditions@.len(),
                forall|j: int| 0 <= j < i ==> self.conditions@[j]@ == other.conditions@[j]@,
            decreases self.conditions@.len() - i,
        {
            if !self.conditions[i].same(&other.conditions[i]) {
                assert(conditions_view(self.conditions@)[i as int] != conditions_view(other.conditions@)[i as int]);
                return false;
            }
            i = i + 1;
        }
        assert(conditions_view(self.conditions@) =~= conditions_view(other.conditions@));
        true
    }
}

} // verus!
