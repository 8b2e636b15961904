# sabre

The Set Automaton Based Rewrite Engine for conditional, first-order,
non-linear term rewrite systems, written in Verus: the library's functions
carry contracts that the verifier proves, and the functions that only take
part in such a proof (small helpers of the proofs and loops) are checked
against the contracts of what they call.

## Layout

- `src/` is the verified library.
  - `term.rs`, `position.rs`: terms (symbols identified by index), positions,
    subterms, substitution and an iterator over all positions.
  - `data.rs`: data expressions (a function symbol applied to arguments is the
    term `DATA_APPLICATION(f, t1, ..., tn)`), conversion from plain terms.
  - `rewrite_specification.rs`: conditional rewrite rules.
  - `semi_compressed_tree.rs`, `term_stack.rs`: the compiled right hand sides
    of rules and their evaluation on a matched term.
  - `announcement.rs`, `match_goal.rs`, `automaton.rs`: match announcements,
    match goals and the construction of the set automaton; `goal_shape.rs`
    and `goal_layers.rs` hold the invariants of the goals of its states.
  - `matching.rs`: what it means for a rule to apply to a term, rewrite
    steps, and what the goals of a state promise about the term read so
    far.
  - `innermost_rewriter.rs`, `sabre_rewriter.rs`, `configuration_stack.rs`:
    the two rewriters that the automaton drives.
  - `match_term.rs`, `protection_set.rs`, `rewriting.rs`: a lazily built term,
    a set of protected objects with stable indices, and the rewriter API.
- `tests/` holds the tests of the library.
- `app/` holds what the library does not: command line arguments, locks,
  threads, atomics, an allocator that counts, and text forms (plain text, dot
  graphs and the TRS format) of the library's values.

Rewriting takes a budget of nested rewrites (`NESTING_BUDGET`); a rewriter
returns `None` only when that budget runs out, or, for the stack based
rewriter, when the automaton does not fit the term.

`innermost_rewriter::lemma_innermost_rewrites` states that the innermost
rewriter only rewrites: the normal form it returns for a data expression
that uses the function symbols of the rules with their arities is reached
from that expression by rewrite steps with the rules.
`innermost_rewriter::lemma_innermost_irreducible` states that this normal
form, for a closed data expression whose symbols all occur in the rules, is
irreducible: no rule fires on any of its subterms, a rule firing when its
left hand side matches and its conditions hold, judged by the normal forms
that this rewriter computes (`innermost_rewriter::fires`). For open terms
this does not hold: the automaton stops at a variable at the label of a
state, while another rule may still match (rules f(a, y) and f(x, b) on the
term f(z, b)).

The stack based rewriter is stated step by step: `sabre_rewriter::sabre_step`
says what one step of the depth-first exploration of the configuration tree
does to the model of the configuration stack (take up the last side
information of the current configuration, or observe the symbol at the label
of its state and take the transition on it), and
`sabre_rewriter::sabre_normal_form` is the term that a run of such steps
ends with. Where the symbol at the label has no transition (it occurs in no
rule), the arguments below it are rewritten on their own and the result is
put in place. `lemma_sabre_more_fuel` states that a larger budget gives the
same result. That the result is reached by rewrite steps, or is irreducible,
is not proved for this rewriter.

Both rewriters state how many rewrite steps they count
(`innermost_rewriter::rule_count`, `sabre_rewriter::sabre_rule_count`,
saturating at the largest `usize`); the other counters are stated never to
go down.

`SetAutomaton::new` states that every state but the initial one is reached
by a transition of an earlier state (`automaton::states_reached`), and
`automaton::lemma_automaton_closed` that transitions lead to states and
announce only the rules the automaton was built from.

The positions of a term are listed in breadth-first order (shorter
positions first, then lexicographically; `term::breadth_first`), and the
positions of the equivalence classes of a non-linear pattern, and of the
term stack of a right hand side, come in that order. That evaluating such a
term stack gives the instance of the right hand side is not proved; the
rewriters evaluate right hand sides through semi-compressed term trees, for
which it is (`semi_compressed_tree::lemma_evaluate_sctt_of`). The label of a state is the shortest position of an obligation of a
goal announced at the root.
