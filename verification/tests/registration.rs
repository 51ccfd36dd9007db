use expert_system::kb::{remove_rule, Variable, Variables, rules_len};
use expert_system::parsing::fill_maps;
use expert_system::leakser::Flag;
use expert_system::parsing::parse_line;
use expert_system::translate::Lang;
use expert_system::utils::{str_eq, string_to_char};

fn feed(v: &mut Variables, line: &str) {
    parse_line(v, String::from(line), false).expect(line);
}

fn feed_err(v: &mut Variables, line: &str) -> String {
    parse_line(v, String::from(line), false).unwrap_err()
}

#[test]
fn disjunctive_consequent_is_rejected() {
    let mut v = Variables::new();
    let e = feed_err(&mut v, "C => A | B");
    assert_eq!(e, "output can only handle & and variables");
    assert_eq!(v.len(), 0);
    // A disjunction in the antecedent is fine: only the consequent is
    // restricted to conjunctions of facts.
    feed(&mut v, "A | B => C");
}

#[test]
fn negated_consequent_is_rejected() {
    let mut v = Variables::new();
    let e = feed_err(&mut v, "A => !C");
    assert_eq!(e, "output can only handle & and variables");
}

#[test]
fn fact_on_both_sides_is_rejected() {
    let mut v = Variables::new();
    let e = feed_err(&mut v, "A & B => A");
    assert_eq!(e, "A is both in input and output");
}

#[test]
fn contradictory_rule_is_rejected() {
    let mut v = Variables::new();
    feed(&mut v, "A & B => C");
    feed(&mut v, "C => B");
    let e = feed_err(&mut v, "A & !B => C");
    assert_eq!(e, "contradiction in rule A & ! B => C");
    // The rejected rule was not admitted: C still has exactly one rule.
    let c = v.get('C').unwrap();
    assert_eq!(c.rules.len(), 1);
}

#[test]
fn rejected_line_changes_nothing() {
    let mut v = Variables::new();
    feed(&mut v, "A => B");
    let before = rules_len(&v);
    let _ = feed_err(&mut v, "A => X | Z");
    assert_eq!(rules_len(&v), before);
    assert!(v.get('Z').is_none());
    assert!(v.get('X').is_none());
}

#[test]
fn duplicate_rules_are_not_reinserted() {
    let mut v = Variables::new();
    feed(&mut v, "A => B");
    feed(&mut v, "A => B");
    assert_eq!(rules_len(&v), 1);
}

#[test]
fn missing_separator_is_rejected() {
    let mut v = Variables::new();
    let e = feed_err(&mut v, "A & B");
    assert_eq!(e, "expected => or <=> operator");
    let e2 = feed_err(&mut v, "A => B => C");
    assert_eq!(e2, "expected only 1 => or <=> operator");
}

#[test]
fn adjacency_violation_is_rejected() {
    let mut v = Variables::new();
    let e = feed_err(&mut v, "A B => C");
    assert_eq!(e, "Unexpected operator B following A");
}

#[test]
fn rule_text_reparses_to_the_same_trees() {
    let mut v = Variables::new();
    feed(&mut v, "A & ( B | !C ) => D");
    let rule = v.get('D').unwrap().rules[0].clone();
    assert_eq!(rule.formula_string, " A & ( B | ! C ) => D");
    // Re-tokenise and re-parse the display text: structurally equal trees.
    let mut w = Variables::new();
    feed(&mut w, &rule.formula_string);
    let rule2 = w.get('D').unwrap().rules[0].clone();
    assert_eq!(rule.input, rule2.input);
    assert_eq!(rule.output, rule2.output);
    assert_eq!(rule.formula_string, rule2.formula_string);
}

#[test]
fn def_line_sets_aliases() {
    let mut v = Variables::new();
    feed(&mut v, "def A \"is on\" \"is off\"");
    let a = v.get('A').unwrap();
    assert_eq!(a.alias_true, Some(String::from("is on")));
    assert_eq!(a.alias_false, Some(String::from("is off")));
    assert_eq!(a.value, false);
    assert_eq!(a.locked, false);
}

#[test]
fn def_line_rejects_reserved_and_short_aliases() {
    let mut v = Variables::new();
    let e = feed_err(&mut v, "def A not");
    assert_eq!(e, "not is a reserved word");
    let e2 = feed_err(&mut v, "def A x");
    assert_eq!(e2, "x is too short to be an alias");
    let e3 = feed_err(&mut v, "def AB");
    assert_eq!(e3, "AB is not a valid variable name");
}

#[test]
fn def_line_rejects_an_alias_already_taken() {
    let mut v = Variables::new();
    feed(&mut v, "def A \"shared\"");
    let e = feed_err(&mut v, "def B \"shared\"");
    assert_eq!(e, "shared is already an alias");
}

#[test]
fn aliases_name_facts_in_rules() {
    let mut v = Variables::new();
    feed(&mut v, "def A \"day\" \"night\"");
    feed(&mut v, "day => L");
    feed(&mut v, "=A");
    let (l, _) = expert_system::algo::search_query('L', &mut v, &Vec::new(), Vec::new()).unwrap();
    assert_eq!(l, true);
}

#[test]
fn set_line_creates_locked_true_facts() {
    let mut v = Variables::new();
    feed(&mut v, "=AB");
    let a = v.get('A').unwrap();
    assert_eq!((a.value, a.locked), (true, true));
    let b = v.get('B').unwrap();
    assert_eq!((b.value, b.locked), (true, true));
}

#[test]
fn request_line_marks_facts_requested() {
    let mut v = Variables::new();
    feed(&mut v, "?GV");
    assert_eq!(v.requested_facts(), vec!['G', 'V']);
    let g = v.get('G').unwrap();
    assert_eq!(g.requested, true);
    assert_eq!(g.locked, false);
}

#[test]
fn restricted_mode_refuses_bare_rule_lines() {
    let mut v = Variables::new();
    let e = parse_line(&mut v, String::from("A => B"), true).unwrap_err();
    assert_eq!(e, "Expected one of [=, ?, def, if] found A => B");
    assert!(parse_line(&mut v, String::from("if A => B"), true).is_ok());
}

#[test]
fn rules_len_counts_rules_over_all_facts() {
    let mut v = Variables::new();
    assert_eq!(rules_len(&v), 0);
    feed(&mut v, "A => B");
    feed(&mut v, "A => C & D");
    // The second rule is indexed under C and under D.
    assert_eq!(rules_len(&v), 3);
}

#[test]
fn variable_constructors_set_their_states() {
    let d = Variable::default();
    assert_eq!((d.value, d.locked, d.requested), (false, false, false));
    let r = Variable::request();
    assert_eq!((r.value, r.locked, r.requested), (false, false, true));
    let i = Variable::insert();
    assert_eq!((i.value, i.locked, i.requested), (true, true, false));
}

#[test]
fn flags_parse_and_language_is_case_insensitive() {
    assert_eq!(Flag::from_string("-h", None), Ok((Flag::Help, false)));
    assert_eq!(Flag::from_string("--trace", None), Ok((Flag::Trace, false)));
    let next = String::from(" FR ");
    assert_eq!(Flag::from_string("-l", Some(&next)), Ok((Flag::Lang(Lang::Fr), true)));
    assert!(Flag::from_string("-l", None).is_err());
    assert!(Flag::from_string("--bogus", None).is_err());
}

#[test]
fn small_string_helpers_behave() {
    assert_eq!(string_to_char("Abc"), 'A');
    assert_eq!(string_to_char(""), '/');
    assert!(str_eq("same", "same"));
    assert!(!str_eq("same", "sama"));
    assert!(!str_eq("same", "sam"));
}

#[test]
fn if_and_only_if_stores_both_display_texts() {
    let mut v = Variables::new();
    feed(&mut v, "A <=> B");
    assert_eq!(v.get('B').unwrap().rules[0].formula_string, " A => B");
    assert_eq!(v.get('A').unwrap().rules[0].formula_string, " B => A");
}

#[test]
fn def_line_updates_aliases_of_a_known_fact() {
    let mut v = Variables::new();
    feed(&mut v, "def A \"first\"");
    feed(&mut v, "def A \"second\" \"third\"");
    let a = v.get('A').unwrap();
    assert_eq!(a.alias_true, Some(String::from("second")));
    assert_eq!(a.alias_false, Some(String::from("third")));
    // Redefining without aliases clears them.
    feed(&mut v, "def A");
    let a = v.get('A').unwrap();
    assert_eq!(a.alias_true, None);
    assert_eq!(a.alias_false, None);
}

#[test]
fn false_alias_negates_the_fact_in_a_rule() {
    let mut v = Variables::new();
    feed(&mut v, "def A \"up\" \"down\"");
    // The false-alias stands for the negation of its fact.
    feed(&mut v, "down => L");
    let rule = v.get('L').unwrap().rules[0].clone();
    assert_eq!(rule.formula_string, " ! A => L");
}

#[test]
fn comment_only_and_empty_lines_are_ignored() {
    let mut v = Variables::new();
    let lines = vec![
        String::from("# a comment"),
        String::from(""),
        String::from("A => B # trailing comment"),
        String::from("   "),
        String::from("=A"),
    ];
    fill_maps(&mut v, &lines).unwrap();
    let (b, _) =
        expert_system::algo::search_query('B', &mut v, &Vec::new(), Vec::new()).unwrap();
    assert_eq!(b, true);
}

#[test]
fn clear_forgets_everything() {
    let mut v = Variables::new();
    feed(&mut v, "A => B");
    feed(&mut v, "=A");
    v.clear();
    assert_eq!(v.len(), 0);
    assert_eq!(rules_len(&v), 0);
}

#[test]
fn remove_rule_deletes_the_indexed_rule() {
    let mut v = Variables::new();
    feed(&mut v, "A => B");
    feed(&mut v, "C => D");
    assert_eq!(rules_len(&v), 2);
    let text = remove_rule(&mut v, 2).unwrap();
    assert_eq!(text, " C => D");
    assert_eq!(rules_len(&v), 1);
    assert_eq!(remove_rule(&mut v, 5), None);
    assert_eq!(remove_rule(&mut v, 0), None);
    let t2 = remove_rule(&mut v, 1).unwrap();
    assert_eq!(t2, " A => B");
    assert_eq!(rules_len(&v), 0);
}
