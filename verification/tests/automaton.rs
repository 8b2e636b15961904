use sabre::{
    data_application, data_function, data_variable, is_supported_rule, is_supported_term, symbol_table,
    ATerm, ExplicitPosition, MatchAnnouncement, MatchGoal, MatchObligation, RewriteSpecification, Rule,
    SetAutomaton, State,
};

const F: usize = 1;
const A: usize = 2;
const B: usize = 3;
const G: usize = 4;
const X: usize = 1;

fn appl(f: usize, args: Vec<ATerm>) -> ATerm {
    data_application(f, args)
}

/// The rule f(a) -> b.
fn fab() -> Rule {
    Rule { conditions: vec![], lhs: appl(F, vec![data_function(A)]), rhs: data_function(B) }
}

fn goal(announced: &[usize], obligations: &[(ATerm, &[usize])], rule: Rule) -> MatchGoal {
    MatchGoal {
        obligations: obligations
            .iter()
            .map(|(p, pos)| MatchObligation { pattern: p.copy(), position: ExplicitPosition::new(pos) })
            .collect(),
        announcement: MatchAnnouncement { rule, position: ExplicitPosition::new(announced), symbols_seen: 0 },
    }
}

#[test]
fn positions_are_comparable_when_one_is_above_the_other() {
    let p = ExplicitPosition::new(&[2, 2, 3]);
    assert!(MatchGoal::pos_comparable(&p, &ExplicitPosition::new(&[2])));
    assert!(MatchGoal::pos_comparable(&ExplicitPosition::new(&[2]), &p));
    assert!(!MatchGoal::pos_comparable(&p, &ExplicitPosition::new(&[1])));
    assert!(MatchGoal::pos_comparable(&p, &ExplicitPosition::empty_pos()));
    assert!(MatchGoal::pos_comparable(&p, &p));
}

#[test]
fn common_prefix_length_of_slices() {
    assert_eq!(MatchGoal::common_prefix_length(&[1, 2, 3], &[1, 2, 4]), 2);
    assert_eq!(MatchGoal::common_prefix_length(&[1, 2], &[1, 2]), 2);
    assert_eq!(MatchGoal::common_prefix_length(&[3], &[1]), 0);
    assert_eq!(MatchGoal::common_prefix_length(&[], &[]), 0);
}

#[test]
fn greatest_common_prefix_and_removal() {
    let a = appl(F, vec![data_function(A)]);
    let goals = vec![
        goal(&[1, 2], &[(a.copy(), &[1, 2, 3]), (a.copy(), &[1, 2, 4])], fab()),
        goal(&[1, 3], &[(a.copy(), &[1, 3])], fab()),
    ];
    let gcp = MatchGoal::greatest_common_prefix(&goals);
    assert_eq!(gcp.to_vec(), vec![1]);

    assert!(MatchGoal::greatest_common_prefix(&vec![]).is_empty());

    let single = vec![goal(&[1, 2], &[(a.copy(), &[1, 2, 3])], fab())];
    assert_eq!(MatchGoal::greatest_common_prefix(&single).to_vec(), vec![1, 2]);

    let shortened = MatchGoal::remove_prefix(goals, 1);
    assert_eq!(shortened[0].announcement.position.to_vec(), vec![2]);
    assert_eq!(shortened[0].obligations[0].position.to_vec(), vec![2, 3]);
    assert_eq!(shortened[0].obligations[1].position.to_vec(), vec![2, 4]);
    assert_eq!(shortened[1].announcement.position.to_vec(), vec![3]);
    assert_eq!(shortened[1].obligations[0].position.to_vec(), vec![3]);
}

#[test]
fn partition_groups_comparable_positions() {
    let a = appl(F, vec![data_function(A)]);
    let goals = vec![
        goal(&[2], &[(a.copy(), &[2])], fab()),
        goal(&[1, 2], &[(a.copy(), &[1, 2])], fab()),
        goal(&[2, 1, 1], &[(a.copy(), &[2, 1, 1])], fab()),
        goal(&[1], &[(a.copy(), &[1])], fab()),
        goal(&[2], &[(a.copy(), &[2, 3])], fab()),
    ];
    let partitions = MatchGoal::partition(goals);
    assert_eq!(partitions.len(), 2);
    let positions: Vec<Vec<Vec<usize>>> =
        partitions.iter().map(|(_, ps)| ps.iter().map(|p| p.to_vec()).collect()).collect();
    assert_eq!(positions, vec![vec![vec![1], vec![1, 2]], vec![vec![2], vec![2, 1, 1]]]);
    // The goals of a partition come position by position, in their order.
    let first: Vec<Vec<usize>> = partitions[0].0.iter().map(|g| g.announcement.position.to_vec()).collect();
    assert_eq!(first, vec![vec![1], vec![1, 2]]);
    let second: Vec<Vec<usize>> = partitions[1].0.iter().map(|g| g.obligations[0].position.to_vec()).collect();
    assert_eq!(second, vec![vec![2], vec![2, 3], vec![2, 1, 1]]);
}

#[test]
fn partition_with_a_root_goal_keeps_all_goals_together() {
    let a = appl(F, vec![data_function(A)]);
    let goals = vec![
        goal(&[2], &[(a.copy(), &[2])], fab()),
        goal(&[], &[(a.copy(), &[1])], fab()),
        goal(&[2], &[(a.copy(), &[2, 2])], fab()),
    ];
    let partitions = MatchGoal::partition(goals);
    assert_eq!(partitions.len(), 1);
    assert_eq!(partitions[0].0.len(), 3);
    let positions: Vec<Vec<usize>> = partitions[0].1.iter().map(|p| p.to_vec()).collect();
    assert_eq!(positions, vec![vec![2], vec![]]);
}

#[test]
fn state_label_is_the_shortest_root_obligation() {
    let a = appl(F, vec![data_function(A)]);
    let goals = vec![
        goal(&[3], &[(a.copy(), &[1])], fab()),
        goal(&[], &[(a.copy(), &[3]), (a.copy(), &[2, 5])], fab()),
        goal(&[], &[(a.copy(), &[2, 7])], fab()),
    ];
    let state = State::new(goals, 4);
    assert_eq!(state.label.to_vec(), vec![3]);
    assert!(state.transitions.is_empty());
    assert_eq!(state.match_goals.len(), 3);
}

#[test]
fn state_label_prefers_a_shorter_position_to_a_lexicographically_smaller_one() {
    let a = appl(F, vec![data_function(A)]);
    let goals = vec![goal(&[], &[(a.copy(), &[2, 2]), (a.copy(), &[3])], fab())];
    let state = State::new(goals, 4);
    assert_eq!(state.label.to_vec(), vec![3]);
}

#[test]
fn supported_terms_and_symbol_table() {
    let rule = fab();
    assert!(is_supported_rule(&rule));
    assert!(is_supported_term(&appl(F, vec![data_variable(X)])));
    // A higher-order application is not supported.
    let higher = ATerm::new(0, vec![data_variable(X), data_function(A)]);
    assert!(!is_supported_term(&higher));
    // Nor is a term with another head symbol.
    assert!(!is_supported_term(&ATerm::new(7, vec![data_function(A)])));

    let table = symbol_table(&vec![rule]);
    assert_eq!(table, vec![(0, 0), (F, 1), (A, 0), (B, 0)]);
}

#[test]
fn set_automaton_of_single_rule() {
    let spec = RewriteSpecification { rewrite_rules: vec![fab()], constructors: vec![] };
    let automaton = SetAutomaton::new(&spec, false);

    assert_eq!(automaton.states.len(), 2);
    let s0 = &automaton.states[0];
    let s1 = &automaton.states[1];
    assert!(s0.label.is_empty());
    assert_eq!(s1.label.to_vec(), vec![2]);
    assert_eq!(s0.transitions.len(), 4);
    assert_eq!(s1.transitions.len(), 4);
    assert!(s0.match_goals.is_empty() && s1.match_goals.is_empty());

    // Reading f in the initial state leads to state 1 at the root.
    let t = &s0.transitions[F];
    assert_eq!(t.symbol, F);
    assert!(t.announcements.is_empty());
    assert_eq!(t.destinations.len(), 1);
    assert!(t.destinations[0].0.is_empty());
    assert_eq!(t.destinations[0].1, 1);

    // Reading a in the initial state leads nowhere.
    assert!(s0.transitions[A].destinations.is_empty());

    // Reading f at position 2 in state 1 stays in state 1 below position 2.
    let t = &s1.transitions[F];
    assert_eq!(t.destinations.len(), 1);
    assert_eq!(t.destinations[0].0.to_vec(), vec![2]);
    assert_eq!(t.destinations[0].1, 1);

    // Reading a at position 2 in state 1 announces the match of f(a) at the root.
    let t = &s1.transitions[A];
    assert_eq!(t.announcements.len(), 1);
    assert!(t.announcements[0].announcement.position.is_empty());
    assert_eq!(t.announcements[0].announcement.symbols_seen, 1);
    assert!(t.destinations.is_empty());
}

#[test]
fn apma_keeps_all_goals_at_the_root() {
    let spec = RewriteSpecification { rewrite_rules: vec![fab()], constructors: vec![] };
    let automaton = SetAutomaton::new(&spec, true);
    let t = &automaton.states[0].transitions[F];
    assert_eq!(t.destinations.len(), 1);
    assert!(t.destinations[0].0.is_empty());
    assert!(automaton.states.len() >= 2);
}

#[test]
fn automaton_transitions_lead_to_states_and_announce_its_rules() {
    // f(a) -> b and f(x) -> x.
    let other = Rule { conditions: vec![], lhs: appl(F, vec![data_variable(X)]), rhs: data_variable(X) };
    let spec = RewriteSpecification { rewrite_rules: vec![fab(), other], constructors: vec![] };
    let automaton = SetAutomaton::new(&spec, false);
    for state in &automaton.states {
        for t in &state.transitions {
            for (_, s) in &t.destinations {
                assert!(*s < automaton.states.len());
            }
            for e in &t.announcements {
                assert!(spec.rewrite_rules.iter().any(|r| r.lhs.equals(&e.announcement.rule.lhs)));
            }
        }
    }
}
