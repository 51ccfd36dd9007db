use expert_system::algo::{TraceStep, search_query};
use expert_system::kb::Variables;
use expert_system::models::{BTree, Operator};
use expert_system::parsing::parse_line;

fn feed(v: &mut Variables, line: &str) {
    parse_line(v, String::from(line), false).expect(line);
}

fn resolve(v: &mut Variables, fact: char) -> Result<(bool, Vec<TraceStep>), String> {
    search_query(fact, v, &Vec::new(), Vec::new())
}

#[test]
fn closed_world_default_yields_false_with_defaulted_trace() {
    let mut v = Variables::new();
    feed(&mut v, "?A");
    let (value, trace) = resolve(&mut v, 'A').unwrap();
    assert_eq!(value, false);
    assert_eq!(trace, vec![TraceStep::Defaulted { fact: 'A' }]);
}

#[test]
fn resolving_twice_is_idempotent_and_cached() {
    let mut v = Variables::new();
    feed(&mut v, "?A");
    let (first, _) = resolve(&mut v, 'A').unwrap();
    let (second, trace) = resolve(&mut v, 'A').unwrap();
    assert_eq!(first, second);
    assert_eq!(trace, vec![TraceStep::Cached { fact: 'A' }]);
}

#[test]
fn resolving_a_set_fact_twice_keeps_its_value() {
    let mut v = Variables::new();
    feed(&mut v, "=A");
    let (first, trace1) = resolve(&mut v, 'A').unwrap();
    assert_eq!(first, true);
    assert_eq!(trace1, vec![TraceStep::Cached { fact: 'A' }]);
    let (second, trace2) = resolve(&mut v, 'A').unwrap();
    assert_eq!(second, true);
    assert_eq!(trace2, vec![TraceStep::Cached { fact: 'A' }]);
}

#[test]
fn simple_chain_derives_true() {
    let mut v = Variables::new();
    feed(&mut v, "A => B");
    feed(&mut v, "B => C");
    feed(&mut v, "=A");
    let (value, _) = resolve(&mut v, 'C').unwrap();
    assert_eq!(value, true);
}

#[test]
fn cycle_detection_terminates_with_an_error() {
    let mut v = Variables::new();
    feed(&mut v, "A => B");
    feed(&mut v, "B => A");
    let e = resolve(&mut v, 'A').unwrap_err();
    assert_eq!(e, "Error: the rule loop");
}

#[test]
fn end_to_end_scenario_derives_g_and_defaults_y() {
    let mut v = Variables::new();
    feed(&mut v, "=AB");
    feed(&mut v, "A & !B => F");
    feed(&mut v, "!A & B => C");
    feed(&mut v, "A & B => M");
    feed(&mut v, "F | M => G");
    feed(&mut v, "C => Y");
    let (g, trace) = resolve(&mut v, 'G').unwrap();
    assert_eq!(g, true);
    assert_eq!(
        trace,
        vec![
            TraceStep::Derived { rule_text: String::from(" A & ! B => F"), value: false },
            TraceStep::Derived { rule_text: String::from(" A & B => M"), value: true },
            TraceStep::Derived { rule_text: String::from(" F | M => G"), value: true },
        ]
    );
    let (y, _) = resolve(&mut v, 'Y').unwrap();
    assert_eq!(y, false);
}

#[test]
fn conjunctive_consequent_locks_every_fact() {
    let mut v = Variables::new();
    feed(&mut v, "A => B & C");
    feed(&mut v, "=A");
    let (b, _) = resolve(&mut v, 'B').unwrap();
    let (c, trace) = resolve(&mut v, 'C').unwrap();
    assert_eq!(b, true);
    assert_eq!(c, true);
    assert_eq!(trace, vec![TraceStep::Cached { fact: 'C' }]);
}

#[test]
fn if_and_only_if_registers_both_directions() {
    let mut v = Variables::new();
    feed(&mut v, "A <=> B");
    feed(&mut v, "=B");
    let (a, _) = resolve(&mut v, 'A').unwrap();
    assert_eq!(a, true);
}

#[test]
fn a_failing_rule_falls_back_to_the_next_candidate() {
    let mut v = Variables::new();
    // The first rule for D loops through E; the second still derives D.
    feed(&mut v, "E => D");
    feed(&mut v, "D & X => E");
    feed(&mut v, "A => D");
    feed(&mut v, "=A");
    let (d, _) = resolve(&mut v, 'D').unwrap();
    assert_eq!(d, true);
}

#[test]
fn negated_set_fact_blocks_derivation() {
    let mut v = Variables::new();
    feed(&mut v, "!A => B");
    feed(&mut v, "=A");
    let (b, _) = resolve(&mut v, 'B').unwrap();
    assert_eq!(b, false);
}

#[test]
fn xor_antecedent_follows_its_truth_table() {
    let mut v = Variables::new();
    feed(&mut v, "A ^ B => C");
    feed(&mut v, "=A");
    let (c, _) = resolve(&mut v, 'C').unwrap();
    assert_eq!(c, true);
    let mut w = Variables::new();
    feed(&mut w, "A ^ B => C");
    feed(&mut w, "=AB");
    let (c2, _) = resolve(&mut w, 'C').unwrap();
    assert_eq!(c2, false);
}

#[test]
fn word_operators_parse_and_resolve() {
    let mut v = Variables::new();
    feed(&mut v, "A and B => C");
    feed(&mut v, "=AB");
    let (c, _) = resolve(&mut v, 'C').unwrap();
    assert_eq!(c, true);
}

#[test]
fn material_implication_antecedent_resolves() {
    let mut v = Variables::new();
    // A >> B is false only when A is true and B is false.
    feed(&mut v, "A >> B => C");
    feed(&mut v, "=A");
    let (c, _) = resolve(&mut v, 'C').unwrap();
    assert_eq!(c, false);
    let mut w = Variables::new();
    feed(&mut w, "A >> B => C");
    feed(&mut w, "=AB");
    let (c2, _) = resolve(&mut w, 'C').unwrap();
    assert_eq!(c2, true);
}

#[test]
fn equivalence_antecedent_resolves() {
    let mut v = Variables::new();
    feed(&mut v, "A = B => C");
    // Neither A nor B is set: both default to false, which are equal.
    feed(&mut v, "?C");
    let (c, _) = resolve(&mut v, 'C').unwrap();
    assert_eq!(c, true);
}

#[test]
fn parenthesised_antecedent_resolves() {
    let mut v = Variables::new();
    feed(&mut v, "( A | B ) & !C => D");
    feed(&mut v, "=B");
    let (d, _) = resolve(&mut v, 'D').unwrap();
    assert_eq!(d, true);
}

#[test]
fn enrich_substitutes_fact_values() {
    let mut v = Variables::new();
    feed(&mut v, "=A");
    let mut t = BTree::new(Operator::And);
    t.insert_a(BTree::new(Operator::Var('A')));
    t.insert_b(BTree::new(Operator::Var('Z')));
    // A is true; Z is unknown and counts as false.
    let ground = t.enrich(&v);
    assert_eq!(ground.to_string(), "10&");
    assert_eq!(ground.eval(), false);
}

#[test]
fn conjunction_binds_tighter_than_disjunction() {
    // A | B & C groups as A | (B & C): true with only A set.
    let mut v = Variables::new();
    feed(&mut v, "A | B & C => D");
    feed(&mut v, "=A");
    let (d, _) = resolve(&mut v, 'D').unwrap();
    assert_eq!(d, true);
    // With only C set, B & C is false and A is false: D stays false.
    let mut w = Variables::new();
    feed(&mut w, "A | B & C => D");
    feed(&mut w, "=C");
    let (d2, _) = resolve(&mut w, 'D').unwrap();
    assert_eq!(d2, false);
}

#[test]
fn negation_scopes_over_one_operand() {
    // !A & B groups as (!A) & B: true when A unset and B set.
    let mut v = Variables::new();
    feed(&mut v, "!A & B => D");
    feed(&mut v, "=B");
    let (d, _) = resolve(&mut v, 'D').unwrap();
    assert_eq!(d, true);
}
