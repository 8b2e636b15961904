use vstd::prelude::*;

use crate::automaton::{obligations_view, MatchObligation, ObligationModel};
use crate::position::{comparable, is_prefix, lemma_shortlex_transitive, shortlex_lt, ExplicitPosition};
use crate::rewrite_specification::{Rule, RuleModel};
use crate::semi_compressed_tree::{
    create_var_map, lemma_variables_bound, sctt_of, var_map_sound, var_positions, var_references,
    variables_bound, variables_in, SemiCompressedTermTree,
};
use crate::term::{get_position, is_position, subterm_at, term_size, ATerm, PositionIterator, Term};
use crate::term_stack::{configs_view, lists_positions, stack_variables_view, term_stack_of, Config, TermStack, TermStackModel};

verus! {

/// The model of an equivalence class.
pub struct EquivalenceClassModel {
    pub variable: Term,
    pub positions: Seq<Seq<usize>>,
}

/// An equivalence class is a variable with (multiple) positions. This is
/// necessary for non-linear patterns. It is used by EnhancedMatchAnnouncement
/// to store what positions need to be compared.
///
/// # Example
/// Suppose we have a pattern f(x,x), where x is a variable. Then it will have
/// one equivalence class storing "x" and the positions 1 and 2. The function
/// equivalences_hold checks whether the term has the same term on those
/// positions. For example, it will returns false on the term f(a, b) and true
/// on the term f(a, a).
#[derive(Debug)]
pub struct EquivalenceClass {
    pub variable: ATerm,
    pub positions: Vec<ExplicitPosition>,
}

/// The models of a sequence of positions.
pub open spec fn positions_view(s: Seq<ExplicitPosition>) -> Seq<Seq<usize>> {
    s.map_values(|p: ExplicitPosition| p@)
}

impl EquivalenceClass {
    /// The model of this class.
    pub open spec fn view(&self) -> EquivalenceClassModel {
        EquivalenceClassModel { variable: self.variable@, positions: positions_view(self.positions@) }
    }
}

/// The models of a sequence of equivalence classes.
pub open spec fn classes_view(s: Seq<EquivalenceClass>) -> Seq<EquivalenceClassModel> {
    s.map_values(|c: EquivalenceClass| c@)
}

/// In `t`, the subterms at all positions of each class are the same.
pub open spec fn classes_hold(t: Term, eqs: Seq<EquivalenceClassModel>) -> bool {
    forall|k: int, j: int|
        #![trigger eqs[k].positions[j]]
        0 <= k < eqs.len() && 0 <= j < eqs[k].positions.len() ==> subterm_at(
            t,
            eqs[k].positions[0],
        ) == subterm_at(t, eqs[k].positions[j])
}

/// Checks if the equivalence classes hold for the given term.
pub fn check_equivalence_classes(term: &ATerm, eqs: &[EquivalenceClass]) -> (result: bool)
    requires
        forall|k: int|
            0 <= k < eqs@.len() ==> (#[trigger] eqs@[k])@.positions.len() >= 2 && forall|j: int|
                0 <= j < eqs@[k]@.positions.len() ==> is_position(
                    term@,
                    #[trigger] eqs@[k]@.positions[j],
                ),
    ensures
        result == classes_hold(term@, classes_view(eqs@)),
{
    let ghost view = classes_view(eqs@);
    let mut k: usize = 0;
    while k < eqs.len()
        invariant
            k <= eqs@.len(),
            view == classes_view(eqs@),
            forall|a: int|
                0 <= a < eqs@.len() ==> (#[trigger] eqs@[a])@.positions.len() >= 2 && forall|j: int|
                    0 <= j < eqs@[a]@.positions.len() ==> is_position(
                        term@,
                        #[trigger] eqs@[a]@.positions[j],
                    ),
            forall|a: int, j: int|
                #![trigger view[a].positions[j]]
                0 <= a < k && 0 <= j < view[a].positions.len() ==> subterm_at(
                    term@,
                    view[a].positions[0],
                ) == subterm_at(term@, view[a].positions[j]),
        decreases eqs@.len() - k,
    {
        let ec = &eqs[k];
        assert(view[k as int] == ec@);
        // The term at the first position must be equivalent to all other positions.
        assert(is_position(term@, ec@.positions[0]));
        let first = get_position(term, &ec.positions[0]);
        let mut j: usize = 1;
        while j < ec.positions.len()
            invariant
                1 <= j <= ec.positions@.len(),
                k < eqs@.len(),
                view == classes_view(eqs@),
                view[k as int] == ec@,
                Some(first@) == subterm_at(term@, ec@.positions[0]),
                forall|i: int|
                    0 <= i < ec@.positions.len() ==> is_position(term@, #[trigger] ec@.positions[i]),
                forall|i: int|
                    0 <= i < j ==> subterm_at(term@, ec@.positions[0]) == subterm_at(
                        term@,
                        #[trigger] ec@.positions[i],
                    ),
            decreases ec.positions@.len() - j,
        {
            assert(is_position(term@, ec@.positions[j as int]));
            let other = get_position(term, &ec.positions[j]);
            if !first.equals(&other) {
                assert(view[k as int].positions[j as int] == ec@.positions[j as int]);
                assert(subterm_at(term@, view[k as int].positions[0]) != subterm_at(
                    term@,
                    view[k as int].positions[j as int],
                ));
                return false;
            }
            j = j + 1;
        }
        k = k + 1;
    }
    true
}

/// In `t`, the subterms at all positions of each class with at least two
/// positions are the same.
pub open spec fn equivalences_hold_spec(t: Term, eqs: Seq<EquivalenceClassModel>) -> bool {
    forall|k: int, j: int|
        #![trigger eqs[k].positions[j]]
        0 <= k < eqs.len() && eqs[k].positions.len() >= 2 && 0 <= j < eqs[k].positions.len() ==> subterm_at(
            t,
            eqs[k].positions[0],
        ) == subterm_at(t, eqs[k].positions[j])
}

impl EquivalenceClass {
    /// Returns true iff the term has the same subterm at all positions of
    /// each class; a class with fewer than two positions always holds.
    pub fn equivalences_hold(term: &ATerm, eqs: &Vec<EquivalenceClass>) -> (result: bool)
        requires
            forall|k: int, j: int|
                0 <= k < eqs@.len() && 0 <= j < eqs@[k]@.positions.len() ==> is_position(
                    term@,
                    #[trigger] eqs@[k]@.positions[j],
                ),
        ensures
            result == equivalences_hold_spec(term@, classes_view(eqs@)),
    {
        let ghost view = classes_view(eqs@);
        let mut k: usize = 0;
        while k < eqs.len()
            invariant
                k <= eqs@.len(),
                view == classes_view(eqs@),
                forall|a: int, j: int|
                    0 <= a < eqs@.len() && 0 <= j < eqs@[a]@.positions.len() ==> is_position(
                        term@,
                        #[trigger] eqs@[a]@.positions[j],
                    ),
                forall|a: int, j: int|
                    #![trigger view[a].positions[j]]
                    0 <= a < k && view[a].positions.len() >= 2 && 0 <= j < view[a].positions.len() ==> subterm_at(
                        term@,
                        view[a].positions[0],
                    ) == subterm_at(term@, view[a].positions[j]),
            decreases eqs@.len() - k,
        {
            let ec = &eqs[k];
            assert(view[k as int] == ec@);
            if ec.positions.len() >= 2 {
                assert(is_position(term@, eqs@[k as int]@.positions[0]));
                let first = get_position(term, &ec.positions[0]);
                let mut j: usize = 1;
                while j < ec.positions.len()
                    invariant
                        1 <= j <= ec.positions@.len(),
                        k < eqs@.len(),
                        view == classes_view(eqs@),
                        view.len() == eqs@.len(),
                        ec@.positions.len() >= 2,
                        *ec == eqs@[k as int],
                        view[k as int] == ec@,
                        Some(first@) == subterm_at(term@, ec@.positions[0]),
                        forall|a: int, i: int|
                            0 <= a < eqs@.len() && 0 <= i < eqs@[a]@.positions.len() ==> is_position(
                                term@,
                                #[trigger] eqs@[a]@.positions[i],
                            ),
                        forall|i: int|
                            0 <= i < j ==> subterm_at(term@, ec@.positions[0]) == subterm_at(
                                term@,
                                #[trigger] ec@.positions[i],
                            ),
                    decreases ec.positions@.len() - j,
                {
                    assert(is_position(term@, eqs@[k as int]@.positions[j as int]));
                    let other = get_position(term, &ec.positions[j]);
                    if !first.equals(&other) {
                        assert(view[k as int].positions[j as int] == ec@.positions[j as int]);
                        assert(subterm_at(term@, view[k as int].positions[0]) != subterm_at(
                            term@,
                            view[k as int].positions[j as int],
                        ));
                        return false;
                    }
                    j = j + 1;
                }
            }
            k = k + 1;
        }
        true
    }
}

/// Adds the position of a variable to the equivalence classes
fn update_equivalences(ve: &mut Vec<EquivalenceClass>, variable: &ATerm, pos: ExplicitPosition)
    ensures
        ({
            let old_view = classes_view(old(ve)@);
            let new_view = classes_view(final(ve)@);
            if exists|k: int| 0 <= k < old_view.len() && (#[trigger] old_view[k]).variable == variable@ {
                let k = choose|k: int|
                    0 <= k < old_view.len() && (#[trigger] old_view[k]).variable == variable@ && forall|
                        l: int,
                    |
                        0 <= l < k ==> (#[trigger] old_view[l]).variable != variable@;
                new_view == old_view.update(
                    k,
                    if old_view[k].positions.contains(pos@) {
                        old_view[k]
                    } else {
                        EquivalenceClassModel {
                            variable: old_view[k].variable,
                            positions: old_view[k].positions.push(pos@),
                        }
                    },
                )
            } else {
                new_view == old_view.push(
                    EquivalenceClassModel { variable: variable@, positions: seq![pos@] },
                )
            }
        }),
{
    let ghost old_view = classes_view(ve@);
    // Check if the variable was seen before
    let mut k: usize = 0;
    while k < ve.len()
        invariant
            k <= ve@.len(),
            ve@ == old(ve)@,
            old_view == classes_view(ve@),
            forall|l: int| 0 <= l < k ==> (#[trigger] old_view[l]).variable != variable@,
        decreases ve@.len() - k,
    {
        if ve[k].variable.equals(variable) {
            assert(old_view[k as int].variable == variable@);
            let ghost chosen = choose|c: int|
                0 <= c < old_view.len() && (#[trigger] old_view[c]).variable == variable@ && forall|
                    l: int,
                |
                    0 <= l < c ==> (#[trigger] old_view[l]).variable != variable@;
            assert(chosen == k) by {
                if chosen < k {
                    assert(old_view[chosen].variable != variable@);
                } else if chosen > k {
                    assert(old_view[k as int].variable != variable@);
                }
            }
            // Find the equivalence class and add the position
            let mut ec = ve.remove(k);
            let mut found = false;
            let mut j: usize = 0;
            while j < ec.positions.len()
                invariant
                    j <= ec.positions@.len(),
                    found == exists|i: int| 0 <= i < j && (#[trigger] ec@.positions[i]) == pos@,
                decreases ec.positions@.len() - j,
            {
                assert(ec@.positions[j as int] == ec.positions@[j as int]@);
                if ec.positions[j].same(&pos) {
                    found = true;
                }
                j = j + 1;
            }
            let ghost before = ec@;
            if !found {
                ec.positions.push(pos);
                assert(ec@.positions =~= before.positions.push(pos@));
            } else {
                proof {
                    let i = choose|i: int| 0 <= i < before.positions.len() && before.positions[i] == pos@;
                    assert(before.positions.contains(pos@));
                }
            }
            proof {
                if !found {
                    assert(!before.positions.contains(pos@));
                }
            }
            ve.insert(k, ec);
            assert(classes_view(ve@) =~= old_view.update(
                k as int,
                if old_view[k as int].positions.contains(pos@) {
                    old_view[k as int]
                } else {
                    EquivalenceClassModel {
                        variable: old_view[k as int].variable,
                        positions: old_view[k as int].positions.push(pos@),
                    }
                },
            ));
            return ;
        }
        k = k + 1;
    }
    // If the variable was not found at another position add a new equivalence class
    let mut positions: Vec<ExplicitPosition> = Vec::new();
    positions.push(pos);
    ve.push(EquivalenceClass { variable: variable.copy(), positions });
    assert(positions_view(ve@[ve@.len() - 1].positions@) =~= seq![pos@]);
    assert(classes_view(ve@) =~= old_view.push(
        EquivalenceClassModel { variable: variable@, positions: seq![pos@] },
    ));
}

/// The model of a match announcement.
pub struct AnnouncementModel {
    pub rule: RuleModel,
    pub position: Seq<usize>,
    pub symbols_seen: usize,
}

/// Announces that the left hand side of the rule matches at the position,
/// after having seen the given number of symbols.
#[derive(Debug)]
pub struct MatchAnnouncement {
    pub rule: Rule,
    pub position: ExplicitPosition,
    pub symbols_seen: usize,
}

impl MatchAnnouncement {
    /// The model of this announcement.
    pub open spec fn view(&self) -> AnnouncementModel {
        AnnouncementModel {
            rule: self.rule@,
            position: self.position@,
            symbols_seen: self.symbols_seen,
        }
    }

    /// Returns a copy of this announcement.
    pub fn copy(&self) -> (result: MatchAnnouncement)
        ensures
            result@ == self@,
    {
        MatchAnnouncement {
            rule: self.rule.copy(),
            position: self.position.clone(),
            symbols_seen: self.symbols_seen,
        }
    }
}

impl Clone for MatchAnnouncement {
    fn clone(&self) -> (result: MatchAnnouncement)
        ensures
            result@ == self@,
    {
        self.copy()
    }
}

/// The positions in `lhs` of the variable term `v`, as listed in the class,
/// are distinct and each holds `v`.
pub open spec fn class_sound(lhs: Term, c: EquivalenceClassModel) -> bool {
    &&& c.variable.variable
    &&& forall|j: int|
        0 <= j < c.positions.len() ==> subterm_at(lhs, #[trigger] c.positions[j]) == Some(
            c.variable,
        )
    &&& forall|i: int, j: int|
        0 <= i < j < c.positions.len() ==> c.positions[i] != c.positions[j]
}

/// The equivalence classes of the variables of `lhs` that occur at least
/// twice: every class is sound and has at least two positions, no two classes
/// have the same variable, and every pair of distinct positions of one
/// variable lies in a class.
pub open spec fn equivalence_classes_of(lhs: Term, cs: Seq<EquivalenceClassModel>) -> bool {
    &&& forall|k: int|
        0 <= k < cs.len() ==> class_sound(lhs, #[trigger] cs[k]) && cs[k].positions.len() >= 2
    &&& forall|k: int, l: int| 0 <= k < l < cs.len() ==> cs[k].variable != cs[l].variable
    &&& forall|p: Seq<usize>, q: Seq<usize>|
        #![trigger subterm_at(lhs, p), subterm_at(lhs, q)]
        p != q && subterm_at(lhs, p) is Some && subterm_at(lhs, p)->0.variable && subterm_at(lhs, p)
            == subterm_at(lhs, q) ==> exists|k: int|
            0 <= k < cs.len() && (#[trigger] cs[k]).positions.contains(p)
                && cs[k].positions.contains(q)
}

/// The positions of each class are in breadth-first (shortlex) order, and
/// the classes are ordered by their first positions.
pub open spec fn classes_in_order(cs: Seq<EquivalenceClassModel>) -> bool {
    &&& forall|k: int| 0 <= k < cs.len() ==> (#[trigger] cs[k]).positions.len() >= 1
    &&& forall|k: int, i: int, j: int|
        0 <= k < cs.len() && 0 <= i < j < cs[k].positions.len() ==> shortlex_lt(
            #[trigger] cs[k].positions[i],
            #[trigger] cs[k].positions[j],
        )
    &&& forall|k: int, l: int|
        0 <= k < l < cs.len() ==> shortlex_lt(#[trigger] cs[k].positions[0], #[trigger] cs[l].positions[0])
}

/// Derives the positions in a pattern with same variable (for non-linear patters)
pub fn derive_equivalence_classes(announcement: &MatchAnnouncement) -> (result: Vec<EquivalenceClass>)
    ensures
        equivalence_classes_of(announcement.rule.lhs@, classes_view(result@)),
        classes_in_order(classes_view(result@)),
{
    let ghost lhs = announcement.rule.lhs@;
    let mut var_equivalences: Vec<EquivalenceClass> = Vec::new();
    let mut it = PositionIterator::new(announcement.rule.lhs.copy());
    loop
        invariant
            it.wf(),
            it.root() == lhs,
            classes_in_order(classes_view(var_equivalences@)),
            forall|k: int, i: int|
                0 <= k < classes_view(var_equivalences@).len() && 0 <= i < classes_view(
                    var_equivalences@,
                )[k].positions.len() ==> it.yielded().contains(
                    #[trigger] classes_view(var_equivalences@)[k].positions[i],
                ),
            forall|k: int|
                0 <= k < classes_view(var_equivalences@).len() ==> class_sound(
                    lhs,
                    #[trigger] classes_view(var_equivalences@)[k],
                ),
            forall|k: int, l: int|
                0 <= k < l < classes_view(var_equivalences@).len() ==> classes_view(
                    var_equivalences@,
                )[k].variable != classes_view(var_equivalences@)[l].variable,
            forall|j: int|
                0 <= j < it.yielded().len() ==> subterm_at(lhs, #[trigger] it.yielded()[j]) is Some
                    && (subterm_at(lhs, it.yielded()[j])->0.variable ==> exists|k: int|
                    0 <= k < classes_view(var_equivalences@).len() && (#[trigger] classes_view(
                        var_equivalences@,
                    )[k]).variable == subterm_at(lhs, it.yielded()[j])->0 && classes_view(
                        var_equivalences@,
                    )[k].positions.contains(it.yielded()[j])),
        ensures
            forall|p: Seq<usize>| is_position(lhs, p) ==> #[trigger] it.yielded().contains(p),
            it.root() == lhs,
            classes_in_order(classes_view(var_equivalences@)),
            forall|j: int|
                0 <= j < it.yielded().len() ==> subterm_at(lhs, #[trigger] it.yielded()[j]) is Some
                    && (subterm_at(lhs, it.yielded()[j])->0.variable ==> exists|k: int|
                    0 <= k < classes_view(var_equivalences@).len() && (#[trigger] classes_view(
                        var_equivalences@,
                    )[k]).variable == subterm_at(lhs, it.yielded()[j])->0 && classes_view(
                        var_equivalences@,
                    )[k].positions.contains(it.yielded()[j])),
            forall|k: int|
                0 <= k < classes_view(var_equivalences@).len() ==> class_sound(
                    lhs,
                    #[trigger] classes_view(var_equivalences@)[k],
                ),
            forall|k: int, l: int|
                0 <= k < l < classes_view(var_equivalences@).len() ==> classes_view(
                    var_equivalences@,
                )[k].variable != classes_view(var_equivalences@)[l].variable,
        decreases it.remaining(),
    {
        let ghost y0 = it.yielded();
        let ghost cv0 = classes_view(var_equivalences@);
        match it.next() {
            None => {
                break ;
            },
            Some((term, pos)) => {
                let ghost p = pos@;
                if term.is_variable() {
                    // Register the position of the variable
                    update_equivalences(&mut var_equivalences, &term, pos);
                    proof {
                        let cv = classes_view(var_equivalences@);
                        lemma_update_keeps_classes(lhs, cv0, cv, term@, p, y0);
                        lemma_update_in_order(cv0, cv, term@, p, y0);
                    }
                }
                proof {
                    let y = it.yielded();
                    assert(y[y0.len() as int] == p);
                    let cv = classes_view(var_equivalences@);
                    assert forall|k: int, i: int|
                        0 <= k < cv.len() && 0 <= i < cv[k].positions.len() implies y.contains(
                            #[trigger] cv[k].positions[i],
                        ) by {
                        if cv[k].positions[i] == p {
                            assert(y[y0.len() as int] == p);
                        } else {
                            if !term@.variable {
                                assert(cv == cv0);
                            }
                            assert(y0.contains(cv[k].positions[i]));
                            let j = choose|j: int| 0 <= j < y0.len() && y0[j] == cv[k].positions[i];
                            assert(y[j] == y0[j]);
                        }
                    }
                    assert forall|j: int| 0 <= j < y.len() implies subterm_at(lhs, #[trigger] y[j]) is Some
                        && (subterm_at(lhs, y[j])->0.variable ==> exists|k: int|
                        0 <= k < classes_view(var_equivalences@).len() && (#[trigger] classes_view(
                            var_equivalences@,
                        )[k]).variable == subterm_at(lhs, y[j])->0 && classes_view(
                            var_equivalences@,
                        )[k].positions.contains(y[j])) by {
                        if j < y0.len() {
                            assert(y[j] == y0[j]);
                        }
                    }
                }
            },
        }
    }
    let ghost complete = var_equivalences@;
    let ghost cc = classes_view(complete);
    assert(var_equivalences.len() == complete.len());
    // Discard variables that only occur once
    let mut result: Vec<EquivalenceClass> = Vec::new();
    let ghost mut idx: Seq<int> = Seq::empty();
    let mut k: usize = 0;
    while var_equivalences.len() > 0
        invariant
            k + var_equivalences@.len() == complete.len(),
            complete.len() <= usize::MAX,
            var_equivalences@ == complete.subrange(k as int, complete.len() as int),
            cc == classes_view(complete),
            idx.len() == result@.len(),
            forall|a: int|
                0 <= a < idx.len() ==> 0 <= #[trigger] idx[a] < k && classes_view(result@)[a]
                    == cc[idx[a]] && cc[idx[a]].positions.len() >= 2,
            forall|a: int, b: int| 0 <= a < b < idx.len() ==> idx[a] < idx[b],
            forall|b: int|
                0 <= b < k && (#[trigger] cc[b]).positions.len() >= 2 ==> idx.contains(b),
            classes_in_order(cc),
        decreases var_equivalences@.len(),
    {
        let ec = var_equivalences.remove(0);
        assert(ec@ == cc[k as int]);
        if ec.positions.len() > 1 {
            let ghost before = classes_view(result@);
            result.push(ec);
            proof {
                assert(classes_view(result@) =~= before.push(cc[k as int]));
                let old_idx = idx;
                idx = idx.push(k as int);
                assert forall|b: int|
                    0 <= b < k + 1 && (#[trigger] cc[b]).positions.len() >= 2 implies idx.contains(
                    b,
                ) by {
                    if b < k {
                        let a = choose|a: int| 0 <= a < old_idx.len() && old_idx[a] == b;
                        assert(idx[a] == b);
                    } else {
                        assert(idx[idx.len() - 1] == b);
                    }
                }
            }
        }
        k = k + 1;
        assert(var_equivalences@ =~= complete.subrange(k as int, complete.len() as int));
    }
    proof {
        let cr = classes_view(result@);
        assert forall|a: int| 0 <= a < cr.len() implies class_sound(lhs, #[trigger] cr[a])
            && cr[a].positions.len() >= 2 by {
            assert(cr[a] == cc[idx[a]]);
        }
        assert forall|a: int, i: int, j: int|
            0 <= a < cr.len() && 0 <= i < j < cr[a].positions.len() implies shortlex_lt(
            #[trigger] cr[a].positions[i],
            #[trigger] cr[a].positions[j],
        ) by {
            assert(cr[a] == cc[idx[a]]);
        }
        assert forall|a: int, b: int| 0 <= a < b < cr.len() implies shortlex_lt(
            #[trigger] cr[a].positions[0],
            #[trigger] cr[b].positions[0],
        ) by {
            assert(idx[a] < idx[b]);
            assert(cr[a] == cc[idx[a]]);
            assert(cr[b] == cc[idx[b]]);
        }
        assert forall|a: int| 0 <= a < cr.len() implies (#[trigger] cr[a]).positions.len() >= 1 by {
            assert(cr[a] == cc[idx[a]]);
        }
        assert forall|a: int, b: int| 0 <= a < b < cr.len() implies cr[a].variable
            != cr[b].variable by {
            assert(idx[a] < idx[b]);
            assert(cr[a] == cc[idx[a]]);
            assert(cr[b] == cc[idx[b]]);
        }
        assert forall|p: Seq<usize>, q: Seq<usize>|
            #![trigger subterm_at(lhs, p), subterm_at(lhs, q)]
            p != q && subterm_at(lhs, p) is Some && subterm_at(lhs, p)->0.variable && subterm_at(
                lhs,
                p,
            ) == subterm_at(lhs, q) implies exists|a: int|
            0 <= a < cr.len() && (#[trigger] cr[a]).positions.contains(p)
                && cr[a].positions.contains(q) by {
            assert(is_position(lhs, p));
            assert(is_position(lhs, q));
            let ys = it.yielded();
            assert(ys.contains(p));
            assert(ys.contains(q));
            let jp = choose|j: int| 0 <= j < ys.len() && ys[j] == p;
            let jq = choose|j: int| 0 <= j < ys.len() && ys[j] == q;
            assert(subterm_at(lhs, ys[jp]) is Some);
            assert(subterm_at(lhs, ys[jq]) is Some);
            let kp = choose|kk: int|
                0 <= kk < cc.len() && (#[trigger] cc[kk]).variable == subterm_at(lhs, ys[jp])->0
                    && cc[kk].positions.contains(ys[jp]);
            let kq = choose|kk: int|
                0 <= kk < cc.len() && (#[trigger] cc[kk]).variable == subterm_at(lhs, ys[jq])->0
                    && cc[kk].positions.contains(ys[jq]);
            if kp != kq {
                if kp < kq {
                    assert(cc[kp].variable != cc[kq].variable);
                } else {
                    assert(cc[kq].variable != cc[kp].variable);
                }
            }
            assert(cc[kp].positions.len() >= 2) by {
                let ip = choose|i: int| 0 <= i < cc[kp].positions.len() && cc[kp].positions[i] == p;
                let iq = choose|i: int| 0 <= i < cc[kp].positions.len() && cc[kp].positions[i] == q;
                assert(ip != iq);
            }
            assert(idx.contains(kp));
            let a = choose|a: int| 0 <= a < idx.len() && idx[a] == kp;
            assert(cr[a] == cc[kp]);
        }
    }
    result
}

/// Adding a position that comes after every position listed so far keeps the
/// classes in order.
proof fn lemma_update_in_order(
    cv0: Seq<EquivalenceClassModel>,
    cv: Seq<EquivalenceClassModel>,
    v: Term,
    p: Seq<usize>,
    y0: Seq<Seq<usize>>,
)
    requires
        classes_in_order(cv0),
        forall|k: int, i: int|
            0 <= k < cv0.len() && 0 <= i < cv0[k].positions.len() ==> y0.contains(#[trigger] cv0[k].positions[i]),
        forall|j: int| 0 <= j < y0.len() ==> shortlex_lt(#[trigger] y0[j], p),
        if exists|k: int| 0 <= k < cv0.len() && (#[trigger] cv0[k]).variable == v {
            let k = choose|k: int|
                0 <= k < cv0.len() && (#[trigger] cv0[k]).variable == v && forall|l: int|
                    0 <= l < k ==> (#[trigger] cv0[l]).variable != v;
            cv == cv0.update(
                k,
                if cv0[k].positions.contains(p) {
                    cv0[k]
                } else {
                    EquivalenceClassModel { variable: cv0[k].variable, positions: cv0[k].positions.push(p) }
                },
            )
        } else {
            cv == cv0.push(EquivalenceClassModel { variable: v, positions: seq![p] })
        },
    ensures
        classes_in_order(cv),
        forall|k: int, i: int|
            0 <= k < cv.len() && 0 <= i < cv[k].positions.len() ==> #[trigger] cv[k].positions[i] == p || y0.contains(
                cv[k].positions[i],
            ),
{
    lemma_positions_before(cv0, p, y0);
    if exists|k: int| 0 <= k < cv0.len() && (#[trigger] cv0[k]).variable == v {
        lemma_first_with_variable(cv0, v);
        let k = choose|k: int|
            0 <= k < cv0.len() && (#[trigger] cv0[k]).variable == v && forall|l: int|
                0 <= l < k ==> (#[trigger] cv0[l]).variable != v;
        if cv0[k].positions.contains(p) {
            assert(cv =~= cv0);
        } else {
            lemma_in_order_extend(cv0, k, p, y0);
        }
    } else {
        lemma_in_order_new(cv0, v, p, y0);
    }
}

/// The positions of the classes come before `p`.
proof fn lemma_positions_before(cv0: Seq<EquivalenceClassModel>, p: Seq<usize>, y0: Seq<Seq<usize>>)
    requires
        forall|k: int, i: int|
            0 <= k < cv0.len() && 0 <= i < cv0[k].positions.len() ==> y0.contains(#[trigger] cv0[k].positions[i]),
        forall|j: int| 0 <= j < y0.len() ==> shortlex_lt(#[trigger] y0[j], p),
    ensures
        forall|k: int, i: int|
            0 <= k < cv0.len() && 0 <= i < cv0[k].positions.len() ==> shortlex_lt(#[trigger] cv0[k].positions[i], p),
{
    assert forall|k: int, i: int| 0 <= k < cv0.len() && 0 <= i < cv0[k].positions.len() implies shortlex_lt(
        #[trigger] cv0[k].positions[i],
        p,
    ) by {
        assert(y0.contains(cv0[k].positions[i]));
        let j = choose|j: int| 0 <= j < y0.len() && y0[j] == cv0[k].positions[i];
        assert(shortlex_lt(y0[j], p));
    }
}

/// Adding a later position to class `k` keeps the classes in order.
proof fn lemma_in_order_extend(cv0: Seq<EquivalenceClassModel>, k: int, p: Seq<usize>, y0: Seq<Seq<usize>>)
    requires
        classes_in_order(cv0),
        0 <= k < cv0.len(),
        forall|kk: int, i: int|
            0 <= kk < cv0.len() && 0 <= i < cv0[kk].positions.len() ==> y0.contains(#[trigger] cv0[kk].positions[i]),
        forall|kk: int, i: int|
            0 <= kk < cv0.len() && 0 <= i < cv0[kk].positions.len() ==> shortlex_lt(#[trigger] cv0[kk].positions[i], p),
    ensures
        ({
            let cv = cv0.update(
                k,
                EquivalenceClassModel { variable: cv0[k].variable, positions: cv0[k].positions.push(p) },
            );
            &&& classes_in_order(cv)
            &&& forall|kk: int, i: int|
                0 <= kk < cv.len() && 0 <= i < cv[kk].positions.len() ==> #[trigger] cv[kk].positions[i] == p
                    || y0.contains(cv[kk].positions[i])
        }),
{
    let np = cv0[k].positions.push(p);
    let cv = cv0.update(k, EquivalenceClassModel { variable: cv0[k].variable, positions: np });
    assert(cv0[k].positions.len() >= 1);
    assert forall|kk: int| 0 <= kk < cv.len() implies (#[trigger] cv[kk]).positions.len() >= 1 by {
        assert(cv0[kk].positions.len() >= 1);
    }
    assert forall|kk: int, i: int, j: int|
        0 <= kk < cv.len() && 0 <= i < j < cv[kk].positions.len() implies shortlex_lt(
        #[trigger] cv[kk].positions[i],
        #[trigger] cv[kk].positions[j],
    ) by {
        if kk == k {
            assert(np[i] == cv0[k].positions[i]);
            if j < cv0[k].positions.len() {
                assert(np[j] == cv0[k].positions[j]);
            } else {
                assert(np[j] == p);
            }
        } else {
            assert(cv[kk] == cv0[kk]);
        }
    }
    assert forall|a: int, b: int| 0 <= a < b < cv.len() implies shortlex_lt(
        #[trigger] cv[a].positions[0],
        #[trigger] cv[b].positions[0],
    ) by {
        assert(cv0[a].positions.len() >= 1 && cv0[b].positions.len() >= 1);
        assert(cv[a].positions[0] == cv0[a].positions[0]);
        assert(cv[b].positions[0] == cv0[b].positions[0]);
    }
    assert forall|kk: int, i: int| 0 <= kk < cv.len() && 0 <= i < cv[kk].positions.len() implies #[trigger] cv[kk].positions[i]
        == p || y0.contains(cv[kk].positions[i]) by {
        if kk == k {
            if i < cv0[k].positions.len() {
                assert(np[i] == cv0[k].positions[i]);
            }
        } else {
            assert(cv[kk] == cv0[kk]);
        }
    }
}

/// Adding a class with a later position keeps the classes in order.
proof fn lemma_in_order_new(cv0: Seq<EquivalenceClassModel>, v: Term, p: Seq<usize>, y0: Seq<Seq<usize>>)
    requires
        classes_in_order(cv0),
        forall|kk: int, i: int|
            0 <= kk < cv0.len() && 0 <= i < cv0[kk].positions.len() ==> y0.contains(#[trigger] cv0[kk].positions[i]),
        forall|kk: int, i: int|
            0 <= kk < cv0.len() && 0 <= i < cv0[kk].positions.len() ==> shortlex_lt(#[trigger] cv0[kk].positions[i], p),
    ensures
        ({
            let cv = cv0.push(EquivalenceClassModel { variable: v, positions: seq![p] });
            &&& classes_in_order(cv)
            &&& forall|kk: int, i: int|
                0 <= kk < cv.len() && 0 <= i < cv[kk].positions.len() ==> #[trigger] cv[kk].positions[i] == p
                    || y0.contains(cv[kk].positions[i])
        }),
{
    let cv = cv0.push(EquivalenceClassModel { variable: v, positions: seq![p] });
    let n = cv0.len() as int;
    assert(cv[n].positions =~= seq![p]);
    assert forall|kk: int| 0 <= kk < cv.len() implies (#[trigger] cv[kk]).positions.len() >= 1 by {
        if kk < n {
            assert(cv[kk] == cv0[kk]);
        }
    }
    assert forall|kk: int, i: int, j: int|
        0 <= kk < cv.len() && 0 <= i < j < cv[kk].positions.len() implies shortlex_lt(
        #[trigger] cv[kk].positions[i],
        #[trigger] cv[kk].positions[j],
    ) by {
        assert(kk < n);
        assert(cv[kk] == cv0[kk]);
    }
    assert forall|a: int, b: int| 0 <= a < b < cv.len() implies shortlex_lt(
        #[trigger] cv[a].positions[0],
        #[trigger] cv[b].positions[0],
    ) by {
        assert(cv[a] == cv0[a]);
        assert(cv0[a].positions.len() >= 1);
        if b == n {
            assert(cv[b].positions[0] == p);
        } else {
            assert(cv[b] == cv0[b]);
        }
    }
    assert forall|kk: int, i: int| 0 <= kk < cv.len() && 0 <= i < cv[kk].positions.len() implies #[trigger] cv[kk].positions[i]
        == p || y0.contains(cv[kk].positions[i]) by {
        if kk < n {
            assert(cv[kk] == cv0[kk]);
        }
    }
}

/// Adding a variable position keeps the classes sound, keeps the variables
/// apart, keeps every earlier position in its class and records the new one.
proof fn lemma_update_keeps_classes(
    lhs: Term,
    cv0: Seq<EquivalenceClassModel>,
    cv: Seq<EquivalenceClassModel>,
    v: Term,
    p: Seq<usize>,
    y0: Seq<Seq<usize>>,
)
    requires
        v.variable,
        subterm_at(lhs, p) == Some(v),
        forall|k: int| 0 <= k < cv0.len() ==> class_sound(lhs, #[trigger] cv0[k]),
        forall|k: int, l: int| 0 <= k < l < cv0.len() ==> cv0[k].variable != cv0[l].variable,
        if exists|k: int| 0 <= k < cv0.len() && (#[trigger] cv0[k]).variable == v {
            let k = choose|k: int|
                0 <= k < cv0.len() && (#[trigger] cv0[k]).variable == v && forall|l: int|
                    0 <= l < k ==> (#[trigger] cv0[l]).variable != v;
            cv == cv0.update(
                k,
                if cv0[k].positions.contains(p) {
                    cv0[k]
                } else {
                    EquivalenceClassModel {
                        variable: cv0[k].variable,
                        positions: cv0[k].positions.push(p),
                    }
                },
            )
        } else {
            cv == cv0.push(EquivalenceClassModel { variable: v, positions: seq![p] })
        },
        forall|j: int|
            0 <= j < y0.len() ==> subterm_at(lhs, #[trigger] y0[j]) is Some && (subterm_at(
                lhs,
                y0[j],
            )->0.variable ==> exists|k: int|
                0 <= k < cv0.len() && (#[trigger] cv0[k]).variable == subterm_at(lhs, y0[j])->0
                    && cv0[k].positions.contains(y0[j])),
    ensures
        forall|k: int| 0 <= k < cv.len() ==> class_sound(lhs, #[trigger] cv[k]),
        forall|k: int, l: int| 0 <= k < l < cv.len() ==> cv[k].variable != cv[l].variable,
        forall|j: int|
            0 <= j < y0.len() ==> subterm_at(lhs, #[trigger] y0[j]) is Some && (subterm_at(
                lhs,
                y0[j],
            )->0.variable ==> exists|k: int|
                0 <= k < cv.len() && (#[trigger] cv[k]).variable == subterm_at(lhs, y0[j])->0
                    && cv[k].positions.contains(y0[j])),
        exists|k: int| 0 <= k < cv.len() && (#[trigger] cv[k]).variable == v && cv[k].positions.contains(p),
{
    if exists|k: int| 0 <= k < cv0.len() && (#[trigger] cv0[k]).variable == v {
        let k = choose|k: int|
            0 <= k < cv0.len() && (#[trigger] cv0[k]).variable == v && forall|l: int|
                0 <= l < k ==> (#[trigger] cv0[l]).variable != v;
        assert(exists|k: int|
            0 <= k < cv0.len() && (#[trigger] cv0[k]).variable == v && forall|l: int|
                0 <= l < k ==> (#[trigger] cv0[l]).variable != v) by {
            lemma_first_with_variable(cv0, v);
        }
        let c = cv0[k];
        if !c.positions.contains(p) {
            let np = c.positions.push(p);
            assert(np[np.len() - 1] == p);
            assert forall|i: int, j: int| 0 <= i < j < np.len() implies np[i] != np[j] by {
                if j == np.len() - 1 {
                    assert(np[i] == c.positions[i]);
                }
            }
            assert(class_sound(lhs, cv[k]));
            assert forall|j: int|
                0 <= j < y0.len() && subterm_at(lhs, #[trigger] y0[j]) is Some && subterm_at(
                    lhs,
                    y0[j],
                )->0.variable implies exists|kk: int|
                0 <= kk < cv.len() && (#[trigger] cv[kk]).variable == subterm_at(lhs, y0[j])->0
                    && cv[kk].positions.contains(y0[j]) by {
                let kk = choose|kk: int|
                    0 <= kk < cv0.len() && (#[trigger] cv0[kk]).variable == subterm_at(lhs, y0[j])->0
                        && cv0[kk].positions.contains(y0[j]);
                if kk == k {
                    let i = choose|i: int| 0 <= i < c.positions.len() && c.positions[i] == y0[j];
                    assert(cv[k].positions == np);
                    assert(cv[k].positions[i] == y0[j]);
                } else {
                    assert(cv[kk] == cv0[kk]);
                }
            }
            assert(cv[k].positions[np.len() - 1] == p);
        } else {
            assert(cv =~= cv0);
        }
    } else {
        let n = cv0.len() as int;
        assert(cv == cv0.push(EquivalenceClassModel { variable: v, positions: seq![p] }));
        assert(cv.len() == n + 1);
        assert(cv[n] == EquivalenceClassModel { variable: v, positions: seq![p] });
        assert(cv[n].positions[0] == p);
        assert forall|k: int, l: int| 0 <= k < l < cv.len() implies cv[k].variable
            != cv[l].variable by {
            if l == n {
                assert(cv[k] == cv0[k]);
            }
        }
        assert forall|j: int|
            0 <= j < y0.len() && subterm_at(lhs, #[trigger] y0[j]) is Some && subterm_at(
                lhs,
                y0[j],
            )->0.variable implies exists|kk: int|
            0 <= kk < cv.len() && (#[trigger] cv[kk]).variable == subterm_at(lhs, y0[j])->0
                && cv[kk].positions.contains(y0[j]) by {
            let kk = choose|kk: int|
                0 <= kk < cv0.len() && (#[trigger] cv0[kk]).variable == subterm_at(lhs, y0[j])->0
                    && cv0[kk].positions.contains(y0[j]);
            assert(cv[kk] == cv0[kk]);
        }
    }
}

/// If some class has the variable, there is a first one that has it.
proof fn lemma_first_with_variable(cs: Seq<EquivalenceClassModel>, v: Term)
    requires
        exists|k: int| 0 <= k < cs.len() && (#[trigger] cs[k]).variable == v,
    ensures
        exists|k: int|
            0 <= k < cs.len() && (#[trigger] cs[k]).variable == v && forall|l: int|
                0 <= l < k ==> (#[trigger] cs[l]).variable != v,
    decreases cs.len(),
{
    if cs[0].variable != v {
        let rest = cs.drop_first();
        let k = choose|k: int| 0 <= k < cs.len() && (#[trigger] cs[k]).variable == v;
        assert(rest[k - 1] == cs[k]);
        lemma_first_with_variable(rest, v);
        let k2 = choose|k: int|
            0 <= k < rest.len() && (#[trigger] rest[k]).variable == v && forall|l: int|
                0 <= l < k ==> (#[trigger] rest[l]).variable != v;
        assert(cs[k2 + 1] == rest[k2]);
        assert forall|l: int| 0 <= l < k2 + 1 implies (#[trigger] cs[l]).variable != v by {
            if l > 0 {
                assert(cs[l] == rest[l - 1]);
            }
        }
    }
}

/// A condition for an enhanced match announcement.
#[derive(Debug)]
pub struct EMACondition {
    /// Conditions lhs and rhs are stored in the term pool as much as possible with a SemiCompressedTermTree
    pub semi_compressed_lhs: SemiCompressedTermTree,
    pub semi_compressed_rhs: SemiCompressedTermTree,
    /// whether the lhs and rhs should be equal or different
    pub equality: bool,
}

/// An EnhancedMatchAnnouncement is used on transitions. Besides the normal MatchAnnouncement
/// it stores additional information.
#[derive(Debug)]
pub struct EnhancedMatchAnnouncement {
    pub announcement: MatchAnnouncement,
    /// Positions in the pattern with the same variable, for non-linear patterns
    pub equivalence_classes: Vec<EquivalenceClass>,
    /// Conditions for the left hand side.
    pub conditions: Vec<EMACondition>,
    /// Right hand side is stored in the term pool as much as possible with a SemiCompressedTermTree
    pub semi_compressed_rhs: SemiCompressedTermTree,
    /// Whether the rewrite rule duplicates subterms, e.g. times(s(x), y) = plus(y, times(x, y))
    pub is_duplicating: bool,
    /// The innermost rewrite stack for the right hand side and the positions that must be added to the stack.
    pub innermost_stack: Vec<Config>,
    pub variables: Vec<(ExplicitPosition, usize)>,
    pub stack_size: usize,
}

/// The variables of the right hand side and of the conditions of the rule
/// occur in its left hand side, and its right hand side has at most
/// `usize::MAX` subterms.
pub open spec fn rule_well_formed(rule: RuleModel) -> bool {
    &&& variables_bound(rule.rhs, rule.lhs)
    &&& forall|i: int|
        0 <= i < rule.conditions.len() ==> variables_bound((#[trigger] rule.conditions[i]).lhs, rule.lhs)
            && variables_bound(rule.conditions[i].rhs, rule.lhs)
    &&& term_size(rule.rhs) <= usize::MAX
}

/// The right hand side, the conditions and the term stack of the
/// announcement are compiled with `m`, the positions of the variables in the
/// left hand side.
pub open spec fn compiled_with(ema: EnhancedMatchAnnouncement, m: Map<usize, Seq<usize>>) -> bool {
    let rule = ema.announcement.rule@;
    &&& ema.semi_compressed_rhs@ == sctt_of(rule.rhs, m)
    &&& ema.conditions@.len() == rule.conditions.len()
    &&& forall|i: int|
        0 <= i < rule.conditions.len() ==> (#[trigger] ema.conditions@[i]).semi_compressed_lhs@ == sctt_of(
            rule.conditions[i].lhs,
            m,
        ) && ema.conditions@[i].semi_compressed_rhs@ == sctt_of(rule.conditions[i].rhs, m)
            && ema.conditions@[i].equality == rule.conditions[i].equality
    &&& exists|ps: Seq<Seq<usize>>|
        lists_positions(rule.rhs, ps) && (TermStackModel {
            configs: configs_view(ema.innermost_stack@),
            variables: stack_variables_view(ema.variables@),
            stack_size: ema.stack_size as nat,
        }) == term_stack_of(rule.rhs, ps, m)
}

/// The announcement is compiled: its equivalence classes are those of its
/// left hand side; its right hand side, conditions and term stack are
/// compiled with a variable map of its left hand side; and it is duplicating
/// when two variables of the right hand side refer to the same position.
pub open spec fn is_compiled(e: EnhancedMatchAnnouncement) -> bool {
    let lhs = e.announcement.rule.lhs@;
    &&& equivalence_classes_of(lhs, classes_view(e.equivalence_classes@))
    &&& exists|m: Map<usize, Seq<usize>>|
        var_map_sound(lhs, m) && variables_in(lhs, m.dom()) && compiled_with(e, m)
    &&& e.is_duplicating == exists|i: int, j: int|
        0 <= i < j < var_references(e.semi_compressed_rhs@).len() && var_references(e.semi_compressed_rhs@)[i]
            == var_references(e.semi_compressed_rhs@)[j]
}

impl EnhancedMatchAnnouncement {
    /// For a match announcement derives an EnhancedMatchAnnouncement, which precompiles some information
    /// for faster rewriting.
    pub fn new(announcement: MatchAnnouncement) -> (result: EnhancedMatchAnnouncement)
        requires
            rule_well_formed(announcement.rule@),
        ensures
            result.announcement@ == announcement@,
            is_compiled(result),
    {
        let ghost rule = announcement.rule@;
        // Create a mapping of where the variables are and derive SemiCompressedTermTrees for the
        // rhs of the rewrite rule and for lhs and rhs of each condition.
        // Also see the documentation of SemiCompressedTermTree
        let var_map = create_var_map(&announcement.rule.lhs);
        let ghost m = var_positions(var_map@);
        assert(var_positions(var_map@).dom() == var_map@.dom());
        proof {
            lemma_variables_bound(rule.rhs, rule.lhs, var_map@.dom());
        }
        let sctt_rhs = SemiCompressedTermTree::from_term(&announcement.rule.rhs, &var_map);
        let mut conditions: Vec<EMACondition> = Vec::new();
        let mut i: usize = 0;
        while i < announcement.rule.conditions.len()
            invariant
                i <= announcement.rule.conditions@.len(),
                rule == announcement.rule@,
                rule_well_formed(rule),
                variables_in(rule.lhs, var_map@.dom()),
                m == var_positions(var_map@),
                conditions@.len() == i,
                forall|j: int|
                    0 <= j < i ==> (#[trigger] conditions@[j]).semi_compressed_lhs@ == sctt_of(
                        rule.conditions[j].lhs,
                        m,
                    ) && conditions@[j].semi_compressed_rhs@ == sctt_of(rule.conditions[j].rhs, m)
                        && conditions@[j].equality == rule.conditions[j].equality,
            decreases announcement.rule.conditions@.len() - i,
        {
            let c = &announcement.rule.conditions[i];
            assert(rule.conditions[i as int] == c@);
            proof {
                lemma_variables_bound(c@.lhs, rule.lhs, var_map@.dom());
                lemma_variables_bound(c@.rhs, rule.lhs, var_map@.dom());
            }
            let ema_condition = EMACondition {
                semi_compressed_lhs: SemiCompressedTermTree::from_term(&c.lhs, &var_map),
                semi_compressed_rhs: SemiCompressedTermTree::from_term(&c.rhs, &var_map),
                equality: c.equality,
            };
            conditions.push(ema_condition);
            i = i + 1;
        }
        let is_duplicating = sctt_rhs.contains_duplicate_var_references();
        let equivalence_classes = derive_equivalence_classes(&announcement);

        // Compute the extra information for the InnermostRewriter.
        let stack = TermStack::from_term(&announcement.rule.rhs, &var_map);
        let result = EnhancedMatchAnnouncement {
            announcement,
            equivalence_classes,
            conditions,
            semi_compressed_rhs: sctt_rhs,
            is_duplicating,
            innermost_stack: stack.innermost_stack,
            variables: stack.variables,
            stack_size: stack.stack_size,
        };
        assert(compiled_with(result, m));
        assert(is_compiled(result));
        result
    }
}

} // verus!
