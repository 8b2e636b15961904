//! The Set Automaton Based Rewrite Engine (Sabre) for conditional
//! first-order non-linear rewrite rules: terms and positions, data
//! expressions, substitution, semi-compressed term trees, term stacks, match
//! goals, the construction of set automata, an innermost rewriter driven by
//! such an automaton, and a protection set that keeps track of rooted
//! objects.

pub mod announcement;
pub mod automaton;
pub mod configuration_stack;
pub mod data;
pub mod goal_layers;
pub mod goal_shape;
pub mod innermost_rewriter;
pub mod match_goal;
pub mod match_term;
pub mod matching;
pub mod position;
pub mod protection_set;
pub mod rewrite_specification;
pub mod rewriting;
pub mod sabre_rewriter;
pub mod semi_compressed_tree;
pub mod term;
pub mod term_stack;

pub use announcement::{
    check_equivalence_classes, derive_equivalence_classes, EMACondition, EnhancedMatchAnnouncement,
    EquivalenceClass, MatchAnnouncement,
};
pub use automaton::{
    is_supported_rule, symbol_table, Derivative, GoalsOrInitial, MatchObligation,
    SetAutomaton, State, Transition,
};
pub use data::{
    data_application, data_function, data_variable, get_data_arguments, get_data_function_symbol,
    find_variables, is_supported_term, to_data_expression, VariableSet, DATA_APPLICATION,
};
pub use configuration_stack::{Configuration, ConfigurationStack, SideInfo, SideInfoType};
pub use innermost_rewriter::{InnermostRewriter, NESTING_BUDGET};
pub use sabre_rewriter::SabreRewriter;
pub use match_goal::{same_goals, MatchGoal};
pub use match_term::{MatchTerm, MatchTermInner};
pub use position::{sort_by_position, ExplicitPosition, PositionIndices, Positioned};
pub use protection_set::{Entry, ProtSetIter, ProtectionSet};
pub use rewrite_specification::{Condition, RewriteSpecification, Rule};
pub use rewriting::{RewriteEngine, Rewriter, RewritingStatistics};
pub use semi_compressed_tree::{
    create_var_map, var_map_new, ExplicitNode, SemiCompressedTermTree, VarMap,
};
pub use term::{get_position, substitute, ATerm, PositionIterator};
pub use term_stack::{Config, InnermostStack, TermStack, TermStackBuilder};
