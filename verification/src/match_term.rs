use vstd::prelude::*;

use crate::data::{data_arguments, data_function_symbol, get_data_arguments, get_data_function_symbol, DATA_APPLICATION};
use crate::position::ExplicitPosition;
use crate::term::{get_position, is_position, subterm_at, terms_view, ATerm, Term};

verus! {

/// A temporary term that can be used for matching purposes to avoid
/// constructing a potentially useless term.
#[derive(Debug)]
pub struct MatchTerm<'a> {
    pub symbol: ATerm,
    pub arguments: &'a Vec<ATerm>,
}

/// A subterm of a match term: the match term itself, or a term below it.
#[derive(Debug)]
pub enum MatchTermInner<'a> {
    Match(&'a ATerm, &'a Vec<ATerm>),
    Term(ATerm),
}

/// The model of a subterm of a match term.
pub enum MatchTermModel {
    Match(Term, Seq<Term>),
    Term(Term),
}

/// The term with function symbol `symbol` applied to `args`, or the symbol
/// itself without arguments.
pub open spec fn application_of(symbol: Term, args: Seq<Term>) -> Term {
    if args.len() == 0 {
        symbol
    } else {
        Term { symbol: DATA_APPLICATION, variable: false, args: seq![symbol] + args }
    }
}

/// The symbol followed by the arguments, in which positions are looked up:
/// index 1 is the symbol and index `i + 1` the argument `i`.
pub open spec fn position_frame(symbol: Term, args: Seq<Term>) -> Term {
    Term { symbol: DATA_APPLICATION, variable: false, args: seq![symbol] + args }
}

/// Two subterms of match terms are equal: as terms, or as the function symbol
/// and the arguments of a term.
pub open spec fn inner_equal(a: MatchTermModel, b: MatchTermModel) -> bool {
    match (a, b) {
        (MatchTermModel::Match(s, args), MatchTermModel::Match(s2, args2)) => s == s2 && args == args2,
        (MatchTermModel::Match(s, args), MatchTermModel::Term(t)) => s == data_function_symbol(t) && args
            == data_arguments(t),
        (MatchTermModel::Term(t), MatchTermModel::Match(s, args)) => data_function_symbol(t) == s
            && data_arguments(t) == args,
        (MatchTermModel::Term(t), MatchTermModel::Term(t2)) => t == t2,
    }
}

impl<'a> MatchTermInner<'a> {
    /// The model of this subterm.
    pub open spec fn view(&self) -> MatchTermModel {
        match self {
            MatchTermInner::Match(symbol, arguments) => MatchTermModel::Match(symbol@, terms_view(arguments@)),
            MatchTermInner::Term(t) => MatchTermModel::Term(t@),
        }
    }
}

/// Whether two sequences of terms are equal.
fn terms_equal(a: &[ATerm], b: &[ATerm]) -> (result: bool)
    ensures
        result == (terms_view(a@) == terms_view(b@)),
{
    if a.len() != b.len() {
        assert(terms_view(a@).len() != terms_view(b@).len());
        return false;
    }
    let mut i: usize = 0;
    while i < a.len()
        invariant
            i <= a@.len(),
            a@.len() == b@.len(),
            forall|j: int| 0 <= j < i ==> a@[j]@ == b@[j]@,
        decreases a@.len() - i,
    {
        if !a[i].equals(&b[i]) {
            assert(terms_view(a@)[i as int] != terms_view(b@)[i as int]);
            return false;
        }
        i = i + 1;
    }
    assert(terms_view(a@) =~= terms_view(b@));
    true
}

impl<'a> PartialEq for MatchTermInner<'a> {
    fn eq(&self, other: &Self) -> (result: bool) {
        match self {
            MatchTermInner::Match(symbol, arguments) => match other {
                MatchTermInner::Match(other_symbol, other_arguments) => {
                    symbol.equals(other_symbol) && terms_equal(arguments.as_slice(), other_arguments.as_slice())
                },
                MatchTermInner::Term(other_t) => {
                    symbol.equals(get_data_function_symbol(other_t)) && terms_equal(
                        arguments.as_slice(),
                        get_data_arguments(other_t),
                    )
                },
            },
            MatchTermInner::Term(t) => match other {
                MatchTermInner::Match(other_symbol, other_arguments) => {
                    get_data_function_symbol(t).equals(other_symbol) && terms_equal(
                        get_data_arguments(t),
                        other_arguments.as_slice(),
                    )
                },
                MatchTermInner::Term(other_t) => t.equals(other_t),
            },
        }
    }
}

impl<'a> vstd::std_specs::cmp::PartialEqSpecImpl for MatchTermInner<'a> {
    open spec fn obeys_eq_spec() -> bool {
        true
    }

    open spec fn eq_spec(&self, other: &Self) -> bool {
        inner_equal(self@, other@)
    }
}

impl<'a> MatchTerm<'a> {
    /// The term that this match term stands for.
    pub open spec fn view(&self) -> Term {
        application_of(self.symbol@, terms_view(self.arguments@))
    }

    /// Create a new MatchTerm from its components
    pub fn new(symbol: ATerm, input_arguments: &[ATerm], arguments: &'a mut Vec<ATerm>) -> (result: MatchTerm<'a>)
        ensures
            result.symbol@ == symbol@,
            terms_view(result.arguments@) == terms_view(input_arguments@),
    {
        arguments.clear();
        let mut i: usize = 0;
        while i < input_arguments.len()
            invariant
                i <= input_arguments@.len(),
                arguments@.len() == i,
                forall|j: int| 0 <= j < i ==> (#[trigger] arguments@[j])@ == input_arguments@[j]@,
            decreases input_arguments@.len() - i,
        {
            arguments.push(input_arguments[i].copy());
            i = i + 1;
        }
        assert(terms_view(arguments@) =~= terms_view(input_arguments@));
        MatchTerm { symbol, arguments }
    }

    /// Converts the match term to an actual term.
    pub fn to_term(&self) -> (result: ATerm)
        ensures
            result@ == self@,
    {
        if self.arguments.len() == 0 {
            self.symbol.copy()
        } else {
            let mut all: Vec<ATerm> = Vec::new();
            all.push(self.symbol.copy());
            let mut i: usize = 0;
            while i < self.arguments.len()
                invariant
                    i <= self.arguments@.len(),
                    all@.len() == i + 1,
                    all@[0]@ == self.symbol@,
                    forall|j: int| 0 <= j < i ==> (#[trigger] all@[j + 1])@ == self.arguments@[j]@,
                decreases self.arguments@.len() - i,
            {
                all.push(self.arguments[i].copy());
                i = i + 1;
            }
            assert(terms_view(all@) =~= seq![self.symbol@] + terms_view(self.arguments@)) by {
                assert forall|j: int| 0 <= j < all@.len() implies terms_view(all@)[j] == (seq![self.symbol@]
                    + terms_view(self.arguments@))[j] by {
                    if j > 0 {
                        assert(all@[(j - 1) + 1]@ == self.arguments@[j - 1]@);
                    }
                }
            }
            let result = ATerm::new(DATA_APPLICATION, all);
            assert(result@.args =~= seq![self.symbol@] + terms_view(self.arguments@));
            result
        }
    }

    /// The subterm at the given position, where index 1 is the function
    /// symbol and index `i + 1` the argument `i`.
    pub fn get_position(&self, position: &ExplicitPosition) -> (result: MatchTermInner<'_>)
        requires
            is_position(position_frame(self.symbol@, terms_view(self.arguments@)), position@),
        ensures
            position@.len() == 0 ==> result@ == MatchTermModel::Match(self.symbol@, terms_view(self.arguments@)),
            position@.len() > 0 ==> result@ == MatchTermModel::Term(
                subterm_at(position_frame(self.symbol@, terms_view(self.arguments@)), position@)->0,
            ),
    {
        if position.len() == 0 {
            return MatchTermInner::Match(&self.symbol, self.arguments);
        }
        let ghost frame = position_frame(self.symbol@, terms_view(self.arguments@));
        let index = position.index(0);
        let ghost rest = position@.drop_first();
        assert(subterm_at(frame, position@) == subterm_at(frame.args[index - 1], rest));
        // Take into account that [symbol, t1, ..., tn]
        let root = if index == 1 {
            &self.symbol
        } else {
            &self.arguments[index - 2]
        };
        assert(root@ == frame.args[index - 1]);
        let tail = position.skip(1);
        assert(tail@ =~= rest);
        MatchTermInner::Term(get_position(root, &tail))
    }

    /// Returns the function symbol of the term without constructing it.
    pub fn data_function_symbol(&self, position: &ExplicitPosition) -> (result: ATerm)
        requires
            is_position(position_frame(self.symbol@, terms_view(self.arguments@)), position@),
        ensures
            position@.len() == 0 ==> result@ == self.symbol@,
            position@.len() > 0 ==> result@ == data_function_symbol(
                subterm_at(position_frame(self.symbol@, terms_view(self.arguments@)), position@)->0,
            ),
    {
        match self.get_position(position) {
            MatchTermInner::Match(symbol, _) => symbol.copy(),
            MatchTermInner::Term(t) => get_data_function_symbol(&t).copy(),
        }
    }
}

} // verus!
