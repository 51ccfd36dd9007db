use vstd::prelude::*;
use vstd::seq_lib::*;
use vstd::set_lib::*;
use crate::models::{BTree, Operator, NodeFilter, matches_filter};
use crate::kb::{Variables, Variable, Rule, lemma_enrich_eval};
use crate::utils::str_eq;

verus! {

/// One step of a derivation trace.
#[derive(Debug, PartialEq)]
pub enum TraceStep {
    /// A rule's antecedent was evaluated and produced this verdict.
    Derived { rule_text: String, value: bool },
    /// No rule concludes the fact; the closed-world default applied.
    Defaulted { fact: char },
    /// The fact was already locked; its memoized value was reused.
    Cached { fact: char },
}

impl Clone for TraceStep {
    /// The copy is equal to the original.
    fn clone(&self) -> (r: Self)
        ensures
            r == *self,
    {
        match self {
            TraceStep::Derived { rule_text, value } => TraceStep::Derived {
                rule_text: rule_text.clone(),
                value: *value,
            },
            TraceStep::Defaulted { fact } => TraceStep::Defaulted { fact: *fact },
            TraceStep::Cached { fact } => TraceStep::Cached { fact: *fact },
        }
    }
}

/// Copies a trace.
pub fn clone_trace(v: &Vec<TraceStep>) -> (r: Vec<TraceStep>)
    ensures
        r@ == v@,
{
    let mut r: Vec<TraceStep> = Vec::new();
    let mut i: usize = 0;
    while i < v.len()
        invariant
            i <= v@.len(),
            r@ == v@.take(i as int),
        decreases v@.len() - i,
    {
        let item = v[i].clone();
        r.push(item);
        proof {
            assert(v@.take(i as int).push(v@[i as int]) =~= v@.take(i as int + 1));
        }
        i = i + 1;
    }
    proof {
        assert(v@.take(v@.len() as int) =~= v@);
    }
    r
}

/// Copies a rule-path.
pub fn clone_strings(v: &Vec<String>) -> (r: Vec<String>)
    ensures
        r@ == v@,
{
    let mut r: Vec<String> = Vec::new();
    let mut i: usize = 0;
    while i < v.len()
        invariant
            i <= v@.len(),
            r@ == v@.take(i as int),
        decreases v@.len() - i,
    {
        let item = v[i].clone();
        r.push(item);
        proof {
            assert(v@.take(i as int).push(v@[i as int]) =~= v@.take(i as int + 1));
        }
        i = i + 1;
    }
    proof {
        assert(v@.take(v@.len() as int) =~= v@);
    }
    r
}

/// Whether a rule-path already holds this display text.
pub open spec fn spec_path_contains(path: Seq<String>, text: Seq<char>) -> bool {
    exists|i: int| 0 <= i < path.len() && (#[trigger] path[i])@ == text
}

/// Decides `spec_path_contains`.
pub fn path_contains(path: &Vec<String>, text: &String) -> (r: bool)
    ensures
        r == spec_path_contains(path@, text@),
{
    let mut i: usize = 0;
    while i < path.len()
        invariant
            i <= path@.len(),
            forall|j: int| 0 <= j < i ==> (#[trigger] path@[j])@ != text@,
        decreases path@.len() - i,
    {
        if str_eq(path[i].as_str(), text.as_str()) {
            return true;
        }
        i = i + 1;
    }
    false
}

/// The fact references of a rule, antecedent first.
pub open spec fn rule_vars(r: Rule) -> Seq<Operator> {
    r.input.spec_find_nodes(NodeFilter::Vars) + r.output.spec_find_nodes(NodeFilter::Vars)
}

/// Every fact referenced by a stored rule is itself a known fact.
pub open spec fn closed(v: Variables) -> bool {
    forall|i: int, j: int, k: int|
        #![trigger rule_vars(v.list@[i].1.rules@[j])[k]]
        0 <= i < v.list@.len() && 0 <= j < v.list@[i].1.rules@.len() && 0 <= k < rule_vars(
            v.list@[i].1.rules@[j],
        ).len() ==> v.contains(rule_vars(v.list@[i].1.rules@[j])[k]->Var_0)
}

/// Every stored rule has the admitted shape, and is indexed under a fact of
/// its own consequent.
pub open spec fn rules_ok(v: Variables) -> bool {
    forall|i: int, j: int|
        #![trigger v.list@[i].1.rules@[j]]
        0 <= i < v.list@.len() && 0 <= j < v.list@[i].1.rules@.len() ==> {
            &&& v.list@[i].1.rules@[j].shape_ok()
            &&& v.list@[i].1.rules@[j].output.spec_find_nodes(NodeFilter::Vars).contains(
                Operator::Var(v.list@[i].0),
            )
        }
}

/// The standing invariant of the knowledge base.
pub open spec fn kb_inv(v: Variables) -> bool {
    &&& v.wf()
    &&& closed(v)
    &&& rules_ok(v)
}

/// Resolution changes only fact values and locks: the facts, their order,
/// their rules, their aliases and their requested marks all stay.
pub open spec fn same_shape(v1: Variables, v2: Variables) -> bool {
    &&& v1.list@.len() == v2.list@.len()
    &&& forall|i: int|
        #![trigger v2.list@[i]]
        0 <= i < v1.list@.len() ==> {
            &&& v1.list@[i].0 == v2.list@[i].0
            &&& v1.list@[i].1.rules@ == v2.list@[i].1.rules@
            &&& v1.list@[i].1.requested == v2.list@[i].1.requested
            &&& v1.list@[i].1.alias_true == v2.list@[i].1.alias_true
            &&& v1.list@[i].1.alias_false == v2.list@[i].1.alias_false
        }
}

/// Locked facts stay locked and keep their value.
pub open spec fn locks_monotone(v1: Variables, v2: Variables) -> bool {
    forall|c: char|
        #![trigger v1.spec_get(c)]
        v1.contains(c) && v1.spec_get(c).locked ==> v2.contains(c) && v2.spec_get(c).locked
            && v2.spec_get(c).value == v1.spec_get(c).value
}

/// What `same_shape` carries over: membership, positions, rules, and the
/// whole knowledge-base invariant.
pub proof fn lemma_same_shape_inv(v1: Variables, v2: Variables)
    requires
        kb_inv(v1),
        same_shape(v1, v2),
    ensures
        kb_inv(v2),
        forall|c: char| #[trigger] v2.contains(c) == v1.contains(c),
        forall|c: char|
            #[trigger] v1.contains(c) ==> v1.key_at(c) == v2.key_at(c) && v2.spec_get(c).rules@
                == v1.spec_get(c).rules@,
{
    assert forall|i: int, j: int| 0 <= i < j < v2.list@.len() implies (#[trigger] v2.list@[i]).0
        != (#[trigger] v2.list@[j]).0 by {
        assert(v1.list@[i].0 != v1.list@[j].0);
    }
    assert forall|c: char| #[trigger] v2.contains(c) == v1.contains(c) by {
        if v1.contains(c) {
            let k = v1.key_at(c);
            assert(v2.list@[k].0 == c);
            assert(v2.contains(c));
        }
        if v2.contains(c) {
            let k = v2.key_at(c);
            assert(v1.list@[k].0 == c);
            assert(v1.contains(c));
        }
    }
    crate::kb::lemma_key_semantics(v1);
    crate::kb::lemma_key_semantics(v2);
    assert forall|c: char| #[trigger] v1.contains(c) implies v1.key_at(c) == v2.key_at(c)
        && v2.spec_get(c).rules@ == v1.spec_get(c).rules@ by {
        let k = v1.key_at(c);
        assert(v2.list@[k].0 == c);
        assert(v2.key_at(c) == k);
    }
    assert forall|i: int, j: int, k: int|
        #![trigger rule_vars(v2.list@[i].1.rules@[j])[k]]
        0 <= i < v2.list@.len() && 0 <= j < v2.list@[i].1.rules@.len() && 0 <= k < rule_vars(
            v2.list@[i].1.rules@[j],
        ).len() implies v2.contains(rule_vars(v2.list@[i].1.rules@[j])[k]->Var_0) by {
        assert(v2.list@[i].1.rules@ == v1.list@[i].1.rules@);
        assert(v1.contains(rule_vars(v1.list@[i].1.rules@[j])[k]->Var_0));
    }
    assert forall|i: int, j: int|
        #![trigger v2.list@[i].1.rules@[j]]
        0 <= i < v2.list@.len() && 0 <= j < v2.list@[i].1.rules@.len() implies {
        &&& v2.list@[i].1.rules@[j].shape_ok()
        &&& v2.list@[i].1.rules@[j].output.spec_find_nodes(NodeFilter::Vars).contains(
            Operator::Var(v2.list@[i].0),
        )
    } by {
        assert(v2.list@[i].1.rules@ == v1.list@[i].1.rules@);
        assert(v1.list@[i].1.rules@[j].shape_ok());
    }
}

/// The display texts of every stored rule, in store order.
pub open spec fn all_texts_seq(s: Seq<(char, Variable)>) -> Seq<Seq<char>>
    decreases s.len(),
{
    if s.len() == 0 {
        Seq::empty()
    } else {
        all_texts_seq(s.drop_last()) + s.last().1.rules@.map_values(|r: Rule| r.formula_string@)
    }
}

/// The set of display texts of every stored rule.
pub open spec fn all_texts(v: Variables) -> Set<Seq<char>> {
    all_texts_seq(v.list@).to_set()
}

/// The rule-paths a resolution can still extend: how many stored rule texts
/// are not yet on the path.  This is the resolver's termination measure.
pub open spec fn query_measure(v: Variables, path: Seq<String>) -> nat {
    all_texts(v).difference(Set::new(|t: Seq<char>| spec_path_contains(path, t))).len()
}

/// Stores of the same shape have the same rule texts.
pub proof fn lemma_same_shape_texts(s1: Seq<(char, Variable)>, s2: Seq<(char, Variable)>)
    requires
        s1.len() == s2.len(),
        forall|i: int|
            #![trigger s2[i]]
            0 <= i < s1.len() ==> s1[i].1.rules@ == s2[i].1.rules@,
    ensures
        all_texts_seq(s1) == all_texts_seq(s2),
    decreases s1.len(),
{
    if s1.len() > 0 {
        lemma_same_shape_texts(s1.drop_last(), s2.drop_last());
        assert(s1.last().1.rules@ == s2.last().1.rules@);
    }
}

/// The text of any stored rule is among the store's rule texts.
pub proof fn lemma_texts_contains(s: Seq<(char, Variable)>, i: int, j: int)
    requires
        0 <= i < s.len(),
        0 <= j < s[i].1.rules@.len(),
    ensures
        all_texts_seq(s).contains(s[i].1.rules@[j].formula_string@),
    decreases s.len(),
{
    if i == s.len() - 1 {
        let m = s.last().1.rules@.map_values(|r: Rule| r.formula_string@);
        assert(m[j] == s[i].1.rules@[j].formula_string@);
        assert(all_texts_seq(s)[all_texts_seq(s.drop_last()).len() + j] == m[j]);
    } else {
        lemma_texts_contains(s.drop_last(), i, j);
        let t = s[i].1.rules@[j].formula_string@;
        let k = choose|k: int| 0 <= k < all_texts_seq(s.drop_last()).len() && all_texts_seq(
            s.drop_last(),
        )[k] == t;
        assert(all_texts_seq(s)[k] == t);
    }
}

/// Extending the path with a stored rule text that it does not yet hold
/// strictly shrinks the resolver's measure.
pub proof fn lemma_measure_decreases(v: Variables, path: Seq<String>, s: String)
    requires
        all_texts(v).contains(s@),
        !spec_path_contains(path, s@),
    ensures
        query_measure(v, path.push(s)) < query_measure(v, path),
{
    broadcast use vstd::set::group_set_axioms, seq_to_set_is_finite;

    let t = s@;
    let texts = all_texts(v);
    let p0 = Set::new(|x: Seq<char>| spec_path_contains(path, x));
    let p1 = Set::new(|x: Seq<char>| spec_path_contains(path.push(s), x));
    assert forall|x: Seq<char>| #[trigger] p1.contains(x) == (p0.contains(x) || x == t) by {
        if spec_path_contains(path.push(s), x) {
            let i = choose|i: int| 0 <= i < path.push(s).len() && (#[trigger] path.push(s)[i])@
                == x;
            if i < path.len() {
                assert(path[i]@ == x);
            } else {
                assert(path.push(s)[i] == s);
            }
        }
        if spec_path_contains(path, x) {
            let i = choose|i: int| 0 <= i < path.len() && (#[trigger] path[i])@ == x;
            assert(path.push(s)[i]@ == x);
            assert(spec_path_contains(path.push(s), x));
        }
        if x == t {
            assert(path.push(s)[path.len() as int]@ == x);
            assert(spec_path_contains(path.push(s), x));
        }
    }
    assert(texts.difference(p1) =~= texts.difference(p0).remove(t));
    assert(texts.finite());
    assert(texts.difference(p0).finite());
    assert(texts.difference(p0).contains(t));
    assert(texts.difference(p0).remove(t).len() == texts.difference(p0).len() - 1);
}

/// The first rule of the list whose antecedent holds under the environment.
pub open spec fn first_true_rule(rules: Seq<Rule>, env: Map<char, bool>) -> Option<int>
    decreases rules.len(),
{
    if rules.len() == 0 {
        None
    } else if rules[0].input.eval_env(env) {
        Some(0)
    } else {
        match first_true_rule(rules.drop_first(), env) {
            Some(j) => Some(j + 1),
            None => None,
        }
    }
}

/// When the antecedents before position `i` are false and the one at `i`
/// holds, `i` is the first true rule.
pub proof fn lemma_first_true_at(rules: Seq<Rule>, env: Map<char, bool>, i: int)
    requires
        0 <= i < rules.len(),
        forall|j: int| 0 <= j < i ==> !(#[trigger] rules[j]).input.eval_env(env),
        rules[i].input.eval_env(env),
    ensures
        first_true_rule(rules, env) == Some(i),
    decreases i,
{
    if i > 0 {
        lemma_first_true_at(rules.drop_first(), env, i - 1);
    }
}

/// When no antecedent holds, there is no first true rule.
pub proof fn lemma_first_true_none(rules: Seq<Rule>, env: Map<char, bool>)
    requires
        forall|j: int| 0 <= j < rules.len() ==> !(#[trigger] rules[j]).input.eval_env(env),
    ensures
        first_true_rule(rules, env) is None,
    decreases rules.len(),
{
    if rules.len() > 0 {
        assert(!rules[0].input.eval_env(env));
        lemma_first_true_none(rules.drop_first(), env);
    }
}

/// `same_shape` composes.
pub proof fn lemma_shape_trans(a: Variables, b: Variables, c: Variables)
    requires
        same_shape(a, b),
        same_shape(b, c),
    ensures
        same_shape(a, c),
{
    assert forall|i: int|
        #![trigger c.list@[i]]
        0 <= i < a.list@.len() implies {
        &&& a.list@[i].0 == c.list@[i].0
        &&& a.list@[i].1.rules@ == c.list@[i].1.rules@
        &&& a.list@[i].1.requested == c.list@[i].1.requested
        &&& a.list@[i].1.alias_true == c.list@[i].1.alias_true
        &&& a.list@[i].1.alias_false == c.list@[i].1.alias_false
    } by {
        assert(a.list@[i].0 == b.list@[i].0);
        assert(b.list@[i].0 == c.list@[i].0);
    }
}

/// `locks_monotone` composes.
pub proof fn lemma_locks_trans(a: Variables, b: Variables, c: Variables)
    requires
        locks_monotone(a, b),
        locks_monotone(b, c),
    ensures
        locks_monotone(a, c),
{
    assert forall|ch: char|
        #![trigger a.spec_get(ch)]
        a.contains(ch) && a.spec_get(ch).locked implies c.contains(ch) && c.spec_get(ch).locked
        && c.spec_get(ch).value == a.spec_get(ch).value by {
        assert(b.contains(ch) && b.spec_get(ch).locked && b.spec_get(ch).value == a.spec_get(
            ch,
        ).value);
    }
}

/// Two well-formed stores with the same keys, the same rules and the same
/// cosmetic state have the same shape.
pub proof fn lemma_shape_from_updates(v1: Variables, v2: Variables)
    requires
        v1.wf(),
        v2.wf(),
        v2.keys() == v1.keys(),
        forall|c: char|
            #[trigger] v1.contains(c) ==> v2.contains(c) && {
                let a = v1.spec_get(c);
                let b = v2.spec_get(c);
                &&& b.rules@ == a.rules@
                &&& b.requested == a.requested
                &&& b.alias_true == a.alias_true
                &&& b.alias_false == a.alias_false
            },
    ensures
        same_shape(v1, v2),
{
    crate::kb::lemma_key_semantics(v1);
    crate::kb::lemma_key_semantics(v2);
    assert(v1.list@.len() == v1.keys().len());
    assert(v2.list@.len() == v2.keys().len());
    assert forall|i: int|
        #![trigger v2.list@[i]]
        0 <= i < v1.list@.len() implies {
        &&& v1.list@[i].0 == v2.list@[i].0
        &&& v1.list@[i].1.rules@ == v2.list@[i].1.rules@
        &&& v1.list@[i].1.requested == v2.list@[i].1.requested
        &&& v1.list@[i].1.alias_true == v2.list@[i].1.alias_true
        &&& v1.list@[i].1.alias_false == v2.list@[i].1.alias_false
    } by {
        let c = v1.list@[i].0;
        assert(v1.keys()[i] == c);
        assert(v2.keys()[i] == c);
        assert(v2.list@[i].0 == c);
        assert(v1.contains(c));
        assert(v1.key_at(c) == i);
        assert(v2.key_at(c) == i);
        assert(v1.spec_get(c) == v1.list@[i].1);
        assert(v2.spec_get(c) == v2.list@[i].1);
    }
}

/// What the knowledge-base invariant yields of one stored rule: its shape,
/// that it concludes the fact it is stored under, that every fact it
/// references is known, and that its text is among the store's rule texts.
pub proof fn lemma_rule_facts(v: Variables, q: char, i: int)
    requires
        kb_inv(v),
        v.contains(q),
        0 <= i < v.spec_get(q).rules@.len(),
    ensures
        ({
            let r = v.spec_get(q).rules@[i];
            &&& r.shape_ok()
            &&& r.output.spec_find_nodes(NodeFilter::Vars).contains(Operator::Var(q))
            &&& forall|k: int|
                0 <= k < r.input.spec_find_nodes(NodeFilter::Vars).len() ==> (
                #[trigger] r.input.spec_find_nodes(NodeFilter::Vars)[k]) is Var && v.contains(
                    r.input.spec_find_nodes(NodeFilter::Vars)[k]->Var_0,
                )
            &&& forall|k: int|
                0 <= k < r.output.spec_find_nodes(NodeFilter::Vars).len() ==> (
                #[trigger] r.output.spec_find_nodes(NodeFilter::Vars)[k]) is Var && v.contains(
                    r.output.spec_find_nodes(NodeFilter::Vars)[k]->Var_0,
                )
            &&& all_texts(v).contains(r.formula_string@)
        }),
{
    crate::kb::lemma_key_semantics(v);
    let iq = v.key_at(q);
    let r = v.spec_get(q).rules@[i];
    assert(v.list@[iq].1 == v.spec_get(q));
    assert(v.list@[iq].1.rules@[i] == r);
    assert(r.shape_ok());
    let iv = r.input.spec_find_nodes(NodeFilter::Vars);
    let ov = r.output.spec_find_nodes(NodeFilter::Vars);
    r.input.lemma_find_nodes_match(NodeFilter::Vars);
    r.output.lemma_find_nodes_match(NodeFilter::Vars);
    assert forall|k: int| 0 <= k < iv.len() implies (#[trigger] iv[k]) is Var && v.contains(
        iv[k]->Var_0,
    ) by {
        assert(matches_filter(iv[k], NodeFilter::Vars));
        assert(rule_vars(r)[k] == iv[k]);
        assert(v.contains(rule_vars(v.list@[iq].1.rules@[i])[k]->Var_0));
    }
    assert forall|k: int| 0 <= k < ov.len() implies (#[trigger] ov[k]) is Var && v.contains(
        ov[k]->Var_0,
    ) by {
        assert(matches_filter(ov[k], NodeFilter::Vars));
        assert(rule_vars(r)[iv.len() + k] == ov[k]);
        assert(v.contains(rule_vars(v.list@[iq].1.rules@[i])[iv.len() + k]->Var_0));
    }
    lemma_texts_contains(v.list@, iq, i);
    assert(all_texts_seq(v.list@).contains(r.formula_string@));
}

/// Whether no rule of the list is already on the path.
pub open spec fn no_path_hit(rs: Seq<Rule>, path: Seq<String>) -> bool {
    forall|j: int|
        0 <= j < rs.len() ==> !spec_path_contains(path, (#[trigger] rs[j]).formula_string@)
}

/// Whether every fact of a rule's antecedent is locked.
pub open spec fn rule_inputs_locked(r: Rule, v: Variables) -> bool {
    forall|k: int|
        #![trigger r.input.spec_find_nodes(NodeFilter::Vars)[k]]
        0 <= k < r.input.spec_find_nodes(NodeFilter::Vars).len() ==> {
            let c = r.input.spec_find_nodes(NodeFilter::Vars)[k]->Var_0;
            v.contains(c) && v.spec_get(c).locked
        }
}

/// Whether every antecedent fact of every listed rule is locked.
pub open spec fn all_inputs_locked(rules: Seq<Rule>, v: Variables) -> bool {
    forall|j: int| 0 <= j < rules.len() ==> rule_inputs_locked(#[trigger] rules[j], v)
}


/// Whether a store view holds a fact of this name.
pub open spec fn s_contains(s: Seq<(char, Variable)>, c: char) -> bool {
    exists|i: int| 0 <= i < s.len() && (#[trigger] s[i]).0 == c
}

/// The position of a fact in a store view.
pub open spec fn s_key(s: Seq<(char, Variable)>, c: char) -> int {
    choose|i: int| 0 <= i < s.len() && (#[trigger] s[i]).0 == c
}

/// The state of a fact in a store view.
pub open spec fn s_get(s: Seq<(char, Variable)>, c: char) -> Variable {
    s[s_key(s, c)].1
}

/// The store view with one fact's value and lock replaced.
pub open spec fn s_set(s: Seq<(char, Variable)>, c: char, value: bool, locked: bool) -> Seq<
    (char, Variable),
> {
    s.update(s_key(s, c), (c, Variable { value, locked, ..s_get(s, c) }))
}

/// The current fact values of a store view.
pub open spec fn s_value_map(s: Seq<(char, Variable)>) -> Map<char, bool> {
    Map::new(|c: char| s_contains(s, c), |c: char| s_get(s, c).value)
}

/// The texts of a rule path.
pub open spec fn path_texts(p: Seq<String>) -> Seq<Seq<char>> {
    p.map_values(|t: String| t@)
}

/// Whether some rule of the list is already on the path, by text.
pub open spec fn s_path_hit(rs: Seq<Rule>, path: Seq<Seq<char>>) -> bool {
    exists|j: int| 0 <= j < rs.len() && path.contains((#[trigger] rs[j]).formula_string@)
}

/// For a well-formed store the view-level readings agree with the store's
/// own.
pub proof fn lemma_s_bridge(v: Variables)
    requires
        v.wf(),
    ensures
        forall|c: char| #[trigger] s_contains(v.list@, c) == v.contains(c),
        forall|c: char| #[trigger] v.contains(c) ==> s_key(v.list@, c) == v.key_at(c),
        forall|c: char| #[trigger] v.contains(c) ==> s_get(v.list@, c) == v.spec_get(c),
        s_value_map(v.list@) == v.value_map(),
{
    assert forall|c: char| #[trigger] s_contains(v.list@, c) == v.contains(c) by {
        if s_contains(v.list@, c) {
            let i = s_key(v.list@, c);
            assert(v.list@[i].0 == c);
        }
        if v.contains(c) {
            let i = v.key_at(c);
            assert(v.list@[i].0 == c);
            assert(s_contains(v.list@, c));
        }
    }
    crate::kb::lemma_key_semantics(v);
    assert forall|c: char| #[trigger] v.contains(c) implies s_key(v.list@, c) == v.key_at(c) by {
        let i = s_key(v.list@, c);
        assert(v.list@[i].0 == c);
        let j = v.key_at(c);
        assert(v.list@[j].0 == c);
        if i != j {
            if i < j {
                assert(v.list@[i].0 != v.list@[j].0);
            } else {
                assert(v.list@[j].0 != v.list@[i].0);
            }
        }
    }
    assert(s_value_map(v.list@) =~= v.value_map());
}

/// The mirror of the resolver, indexed by fuel: `None` is insufficient
/// fuel, `Some(Err)` the cycle error, `Some(Ok(b))` the verdict; the store
/// view is threaded through.  The shape follows the resolver exactly: cycle
/// check, memoized answer, closed-world default, then the candidate rules
/// in order.
pub open spec fn spec_resolve(
    s: Seq<(char, Variable)>,
    path: Seq<Seq<char>>,
    q: char,
    fuel: nat,
) -> (Option<Result<bool, ()>>, Seq<(char, Variable)>)
    decreases fuel, 3int, 0int, 0int,
{
    if fuel == 0 {
        (None, s)
    } else {
        let rs = s_get(s, q).rules@;
        if s_path_hit(rs, path) {
            (Some(Err(())), s)
        } else if s_get(s, q).locked {
            (Some(Ok(s_get(s, q).value)), s)
        } else if rs.len() == 0 {
            (Some(Ok(false)), s_set(s, q, false, true))
        } else {
            spec_try_rules(s, path, q, rs, 0, (fuel - 1) as nat)
        }
    }
}

/// The mirror of the candidate-rule loop from rule `i` on: resolve the
/// rule's unlocked antecedent facts, then evaluate it; the first rule whose
/// antecedent holds locks its consequents and wins; a failing rule passes
/// to the next unless it is the last; when no rule fires the fact falls to
/// false.
pub open spec fn spec_try_rules(
    s: Seq<(char, Variable)>,
    path: Seq<Seq<char>>,
    q: char,
    rs: Seq<Rule>,
    i: int,
    fuel: nat,
) -> (Option<Result<bool, ()>>, Seq<(char, Variable)>)
    decreases fuel, 2int, rs.len() - i, 0int,
{
    if i < 0 || i >= rs.len() {
        let s2 = if s_contains(s, q) && !s_get(s, q).locked {
            s_set(s, q, false, true)
        } else {
            s
        };
        (Some(Ok(s_get(s2, q).value)), s2)
    } else {
        let iv = rs[i].input.spec_find_nodes(NodeFilter::Vars);
        match spec_resolve_inputs(s, path.push(rs[i].formula_string@), iv, 0, fuel) {
            (None, s2) => (None, s2),
            (Some(Err(u)), s2) => {
                if i == rs.len() - 1 {
                    (Some(Err(())), s2)
                } else {
                    spec_try_rules(s2, path, q, rs, i + 1, fuel)
                }
            },
            (Some(Ok(u)), s2) => {
                let enriched = rs[i].input.spec_enrich(s_value_map(s2));
                let fired = if enriched.ground() {
                    enriched.eval_ground()
                } else {
                    false
                };
                if fired {
                    let s3 = spec_lock_outputs(
                        s2,
                        rs[i].output.spec_find_nodes(NodeFilter::Vars),
                        0,
                    );
                    (Some(Ok(s_get(s3, q).value)), s3)
                } else {
                    spec_try_rules(s2, path, q, rs, i + 1, fuel)
                }
            },
        }
    }
}

/// The mirror of the antecedent loop from fact `k` on: an already-locked
/// fact is skipped, an unlocked one is resolved recursively; the first
/// failure stops the rule.
pub open spec fn spec_resolve_inputs(
    s: Seq<(char, Variable)>,
    path2: Seq<Seq<char>>,
    iv: Seq<Operator>,
    k: int,
    fuel: nat,
) -> (Option<Result<(), ()>>, Seq<(char, Variable)>)
    decreases fuel, 1int, iv.len() - k, 0int,
{
    if k < 0 || k >= iv.len() {
        (Some(Ok(())), s)
    } else {
        let c = iv[k]->Var_0;
        if s_contains(s, c) && s_get(s, c).locked {
            spec_resolve_inputs(s, path2, iv, k + 1, fuel)
        } else if fuel == 0 {
            (None, s)
        } else {
            match spec_resolve(s, path2, c, (fuel - 1) as nat) {
                (None, s2) => (None, s2),
                (Some(Err(u)), s2) => (Some(Err(())), s2),
                (Some(Ok(b)), s2) => spec_resolve_inputs(s2, path2, iv, k + 1, fuel),
            }
        }
    }
}

/// The mirror of the consequent-locking loop: each still-unlocked fact of
/// the fired rule's consequent is locked true.
pub open spec fn spec_lock_outputs(
    s: Seq<(char, Variable)>,
    ov: Seq<Operator>,
    m: int,
) -> Seq<(char, Variable)>
    decreases ov.len() - m,
{
    if m < 0 || m >= ov.len() {
        s
    } else {
        let d = ov[m]->Var_0;
        let s2 = if s_contains(s, d) && !s_get(s, d).locked {
            s_set(s, d, true, true)
        } else {
            s
        };
        spec_lock_outputs(s2, ov, m + 1)
    }
}

/// A resolution that finishes within some fuel finishes identically within
/// any larger fuel.
pub proof fn lemma_resolve_fuel_mono(
    s: Seq<(char, Variable)>,
    path: Seq<Seq<char>>,
    q: char,
    f1: nat,
    f2: nat,
)
    requires
        f1 <= f2,
        spec_resolve(s, path, q, f1).0 is Some,
    ensures
        spec_resolve(s, path, q, f2) == spec_resolve(s, path, q, f1),
    decreases f1, 3int, 0int, 0int,
{
    let rs = s_get(s, q).rules@;
    if f1 == 0 {
    } else {
        if s_path_hit(rs, path) || s_get(s, q).locked || rs.len() == 0 {
        } else {
            lemma_try_rules_fuel_mono(s, path, q, rs, 0, (f1 - 1) as nat, (f2 - 1) as nat);
        }
    }
}

/// Fuel monotonicity for the candidate-rule loop.
pub proof fn lemma_try_rules_fuel_mono(
    s: Seq<(char, Variable)>,
    path: Seq<Seq<char>>,
    q: char,
    rs: Seq<Rule>,
    i: int,
    f1: nat,
    f2: nat,
)
    requires
        f1 <= f2,
        spec_try_rules(s, path, q, rs, i, f1).0 is Some,
    ensures
        spec_try_rules(s, path, q, rs, i, f2) == spec_try_rules(s, path, q, rs, i, f1),
    decreases f1, 2int, rs.len() - i, 0int,
{
    if i < 0 || i >= rs.len() {
    } else {
        let iv = rs[i].input.spec_find_nodes(NodeFilter::Vars);
        let p2 = path.push(rs[i].formula_string@);
        let m1 = spec_resolve_inputs(s, p2, iv, 0, f1);
        assert(m1.0 is Some) by {
            if m1.0 is None {
                assert(spec_try_rules(s, path, q, rs, i, f1).0 is None);
            }
        }
        lemma_resolve_inputs_fuel_mono(s, p2, iv, 0, f1, f2);
        match m1 {
            (Some(Err(u)), s2) => {
                if i == rs.len() - 1 {
                } else {
                    lemma_try_rules_fuel_mono(s2, path, q, rs, i + 1, f1, f2);
                }
            },
            (Some(Ok(u)), s2) => {
                let enriched = rs[i].input.spec_enrich(s_value_map(s2));
                let fired = if enriched.ground() {
                    enriched.eval_ground()
                } else {
                    false
                };
                if fired {
                } else {
                    lemma_try_rules_fuel_mono(s2, path, q, rs, i + 1, f1, f2);
                }
            },
            _ => {},
        }
    }
}

/// Fuel monotonicity for the antecedent loop.
pub proof fn lemma_resolve_inputs_fuel_mono(
    s: Seq<(char, Variable)>,
    path2: Seq<Seq<char>>,
    iv: Seq<Operator>,
    k: int,
    f1: nat,
    f2: nat,
)
    requires
        f1 <= f2,
        spec_resolve_inputs(s, path2, iv, k, f1).0 is Some,
    ensures
        spec_resolve_inputs(s, path2, iv, k, f2) == spec_resolve_inputs(s, path2, iv, k, f1),
    decreases f1, 1int, iv.len() - k, 0int,
{
    if k < 0 || k >= iv.len() {
    } else {
        let c = iv[k]->Var_0;
        if s_contains(s, c) && s_get(s, c).locked {
            lemma_resolve_inputs_fuel_mono(s, path2, iv, k + 1, f1, f2);
        } else if f1 == 0 {
        } else {
            let r1 = spec_resolve(s, path2, c, (f1 - 1) as nat);
            assert(r1.0 is Some) by {
                if r1.0 is None {
                    assert(spec_resolve_inputs(s, path2, iv, k, f1).0 is None);
                }
            }
            lemma_resolve_fuel_mono(s, path2, c, (f1 - 1) as nat, (f2 - 1) as nat);
            match r1 {
                (Some(Ok(b)), s2) => {
                    lemma_resolve_inputs_fuel_mono(s2, path2, iv, k + 1, f1, f2);
                },
                _ => {},
            }
        }
    }
}

/// Texts of a path, membership both ways.
proof fn lemma_path_texts_bridge(p: Seq<String>, t: Seq<char>)
    ensures
        path_texts(p).contains(t) == spec_path_contains(p, t),
{
    if path_texts(p).contains(t) {
        let i = choose|i: int| 0 <= i < path_texts(p).len() && path_texts(p)[i] == t;
        assert(p[i]@ == t);
        assert(spec_path_contains(p, t));
    }
    if spec_path_contains(p, t) {
        let i = choose|i: int| 0 <= i < p.len() && (#[trigger] p[i])@ == t;
        assert(path_texts(p)[i] == t);
    }
}

/// A path that misses every rule text misses them in the mirror too.
proof fn lemma_no_hit_bridge(p: Seq<String>, rs: Seq<Rule>)
    requires
        no_path_hit(rs, p),
    ensures
        !s_path_hit(rs, path_texts(p)),
{
    if s_path_hit(rs, path_texts(p)) {
        let j = choose|j: int|
            0 <= j < rs.len() && path_texts(p).contains((#[trigger] rs[j]).formula_string@);
        lemma_path_texts_bridge(p, rs[j].formula_string@);
    }
}

/// `set_value_locked`'s store update is the mirror's `s_set`.
proof fn lemma_s_set_bridge(v1: Variables, v2: Variables, c: char, value: bool, locked: bool)
    requires
        v1.wf(),
        v1.contains(c),
        v2.list@ == v1.list@.update(
            v1.key_at(c),
            (c, Variable { value, locked, ..v1.spec_get(c) }),
        ),
    ensures
        v2.list@ == s_set(v1.list@, c, value, locked),
{
    lemma_s_bridge(v1);
}

/// Unfolding the mirror's preliminary steps for an unlocked fact with rules
/// none of which are on the path.
proof fn lemma_resolve_unfold(v0: Variables, p: Seq<String>, q: char, f: nat)
    requires
        v0.wf(),
        v0.contains(q),
        no_path_hit(v0.spec_get(q).rules@, p),
        !v0.spec_get(q).locked,
        v0.spec_get(q).rules@.len() > 0,
    ensures
        spec_resolve(v0.list@, path_texts(p), q, (f + 1) as nat) == spec_try_rules(
            v0.list@,
            path_texts(p),
            q,
            v0.spec_get(q).rules@,
            0,
            f,
        ),
{
    lemma_s_bridge(v0);
    lemma_no_hit_bridge(p, v0.spec_get(q).rules@);
}

/// The mirror's verdict when an antecedent's value is already locked.
proof fn lemma_inputs_step_skip(
    s: Seq<(char, Variable)>,
    p2: Seq<Seq<char>>,
    iv: Seq<Operator>,
    k: int,
    f: nat,
)
    requires
        0 <= k < iv.len(),
        s_contains(s, iv[k]->Var_0),
        s_get(s, iv[k]->Var_0).locked,
    ensures
        spec_resolve_inputs(s, p2, iv, k, f) == spec_resolve_inputs(s, p2, iv, k + 1, f),
{
}

/// The mirror's step for one recursive resolution of an unlocked
/// antecedent.
proof fn lemma_inputs_step_rec(
    s: Seq<(char, Variable)>,
    p2: Seq<Seq<char>>,
    iv: Seq<Operator>,
    k: int,
    f: nat,
)
    requires
        0 <= k < iv.len(),
        !(s_contains(s, iv[k]->Var_0) && s_get(s, iv[k]->Var_0).locked),
        f >= 1,
        spec_resolve(s, p2, iv[k]->Var_0, (f - 1) as nat).0 is Some,
    ensures
        spec_resolve_inputs(s, p2, iv, k, f) == ({
            let m = spec_resolve(s, p2, iv[k]->Var_0, (f - 1) as nat);
            match m.0->Some_0 {
                Ok(b) => spec_resolve_inputs(m.1, p2, iv, k + 1, f),
                Err(u) => (Some(Err::<(), ()>(())), m.1),
            }
        }),
{
}

/// The mirror's outcome once a rule's antecedents are all resolved.
pub open spec fn mirror_fired(s: Seq<(char, Variable)>, r: Rule) -> bool {
    let enriched = r.input.spec_enrich(s_value_map(s));
    if enriched.ground() {
        enriched.eval_ground()
    } else {
        false
    }
}

/// Unfolding one candidate rule whose antecedent resolution failed.
proof fn lemma_try_unfold_fail(
    s: Seq<(char, Variable)>,
    path: Seq<Seq<char>>,
    q: char,
    rs: Seq<Rule>,
    i: int,
    f: nat,
    s2: Seq<(char, Variable)>,
)
    requires
        0 <= i < rs.len(),
        spec_resolve_inputs(
            s,
            path.push(rs[i].formula_string@),
            rs[i].input.spec_find_nodes(NodeFilter::Vars),
            0,
            f,
        ) == (Some(Err::<(), ()>(())), s2),
    ensures
        spec_try_rules(s, path, q, rs, i, f) == if i == rs.len() - 1 {
            (Some(Err::<bool, ()>(())), s2)
        } else {
            spec_try_rules(s2, path, q, rs, i + 1, f)
        },
{
}

/// Unfolding one candidate rule whose antecedents resolved and whose
/// antecedent holds: it fires and locks its consequents.
proof fn lemma_try_unfold_fired(
    s: Seq<(char, Variable)>,
    path: Seq<Seq<char>>,
    q: char,
    rs: Seq<Rule>,
    i: int,
    f: nat,
    s2: Seq<(char, Variable)>,
)
    requires
        0 <= i < rs.len(),
        spec_resolve_inputs(
            s,
            path.push(rs[i].formula_string@),
            rs[i].input.spec_find_nodes(NodeFilter::Vars),
            0,
            f,
        ) == (Some(Ok::<(), ()>(())), s2),
        mirror_fired(s2, rs[i]),
    ensures
        spec_try_rules(s, path, q, rs, i, f) == ({
            let s3 = spec_lock_outputs(s2, rs[i].output.spec_find_nodes(NodeFilter::Vars), 0);
            (Some(Ok::<bool, ()>(s_get(s3, q).value)), s3)
        }),
{
}

/// Unfolding one candidate rule whose antecedents resolved but whose
/// antecedent does not hold: the next candidate is tried.
proof fn lemma_try_unfold_notfired(
    s: Seq<(char, Variable)>,
    path: Seq<Seq<char>>,
    q: char,
    rs: Seq<Rule>,
    i: int,
    f: nat,
    s2: Seq<(char, Variable)>,
)
    requires
        0 <= i < rs.len(),
        spec_resolve_inputs(
            s,
            path.push(rs[i].formula_string@),
            rs[i].input.spec_find_nodes(NodeFilter::Vars),
            0,
            f,
        ) == (Some(Ok::<(), ()>(())), s2),
        !mirror_fired(s2, rs[i]),
    ensures
        spec_try_rules(s, path, q, rs, i, f) == spec_try_rules(s2, path, q, rs, i + 1, f),
{
}

/// Unfolding the mirror past the last candidate rule: the fact falls to
/// false unless it was locked meanwhile.
proof fn lemma_try_base(
    s: Seq<(char, Variable)>,
    path: Seq<Seq<char>>,
    q: char,
    rs: Seq<Rule>,
    f: nat,
)
    ensures
        spec_try_rules(s, path, q, rs, rs.len() as int, f) == ({
            let s2 = if s_contains(s, q) && !s_get(s, q).locked {
                s_set(s, q, false, true)
            } else {
                s
            };
            (Some(Ok::<bool, ()>(s_get(s2, q).value)), s2)
        }),
{
}

/// One step of the mirror's consequent locking.
proof fn lemma_lock_outputs_step(s: Seq<(char, Variable)>, ov: Seq<Operator>, m: int)
    requires
        0 <= m < ov.len(),
    ensures
        spec_lock_outputs(s, ov, m) == spec_lock_outputs(
            if s_contains(s, ov[m]->Var_0) && !s_get(s, ov[m]->Var_0).locked {
                s_set(s, ov[m]->Var_0, true, true)
            } else {
                s
            },
            ov,
            m + 1,
        ),
{
}

/// The resolution error reported when the active rule path loops.
fn cycle_err() -> (s: String)
    ensures
        s@ == "Error: the rule loop"@,
{
    String::from_str("Error: the rule loop")
}

/// Resolves a fact by backward chaining: a fact already on a looping rule
/// path is an error; a locked fact is answered from memory; a fact without
/// rules defaults to false; otherwise the fact's rules are tried in
/// registration order, each unresolved antecedent fact being resolved first,
/// and the first rule whose antecedent holds locks its consequent facts to
/// true.  When no rule fires the fact is locked to false.  Every lock taken
/// is kept for the rest of the session.
///
/// The returned verdict and the final store are exactly those of the
/// resolution mirror `spec_resolve` at some sufficient fuel; by
/// `lemma_resolve_fuel_mono` every sufficient fuel agrees, so the result of
/// transitive resolution is pinned uniquely.
#[verifier::rlimit(100)]
#[verifier::loop_isolation(false)]
pub fn search_query(
    query: char,
    variables: &mut Variables,
    old_rules: &Vec<String>,
    history: Vec<TraceStep>,
) -> (r: Result<(bool, Vec<TraceStep>), String>)
    requires
        kb_inv(*old(variables)),
        old(variables).contains(query),
    ensures
        kb_inv(*final(variables)),
        same_shape(*old(variables), *final(variables)),
        locks_monotone(*old(variables), *final(variables)),
        r matches Err(e) ==> e@ == "Error: the rule loop"@,
        ({
            let rs = old(variables).spec_get(query).rules@;
            &&& (!no_path_hit(rs, old_rules@) ==> r is Err && *final(variables) == *old(variables))
            &&& (no_path_hit(rs, old_rules@) && old(variables).spec_get(query).locked ==> (
            r matches Ok(p) && p.0 == old(variables).spec_get(query).value && p.1@
                == history@.push(TraceStep::Cached { fact: query }) && *final(variables) == *old(
                variables,
            )))
            &&& (no_path_hit(rs, old_rules@) && !old(variables).spec_get(query).locked && rs.len()
                == 0 ==> (r matches Ok(p) && p.0 == false && p.1@ == history@.push(
                TraceStep::Defaulted { fact: query },
            ) && final(variables).spec_get(query) == (Variable {
                value: false,
                locked: true,
                ..old(variables).spec_get(query)
            }) && forall|d: char|
                d != query && old(variables).contains(d) ==> #[trigger] final(variables).spec_get(
                    d,
                ) == old(variables).spec_get(d)))
            &&& (no_path_hit(rs, old_rules@) && !old(variables).spec_get(query).locked && rs.len()
                > 0 && all_inputs_locked(rs, *old(variables)) ==> (match first_true_rule(
                rs,
                old(variables).value_map(),
            ) {
                Some(j) => r matches Ok(p) && p.0 == true && p.1@ == history@.push(
                    TraceStep::Derived { rule_text: rs[j].formula_string, value: true },
                ),
                None => r matches Ok(p) && p.0 == false && p.1@ == history@.push(
                    TraceStep::Derived {
                        rule_text: rs[rs.len() - 1].formula_string,
                        value: false,
                    },
                ),
            }))
        }),
        r matches Ok(p) ==> {
            &&& final(variables).contains(query)
            &&& final(variables).spec_get(query).locked
            &&& p.0 == final(variables).spec_get(query).value
            &&& p.1@.len() > history@.len()
            &&& p.1@.take(history@.len() as int) == history@
        },
        r matches Ok(p) ==> ({
            let rs = old(variables).spec_get(query).rules@;
            p.1@.last() matches TraceStep::Derived { rule_text, value } ==> (value ==> exists|
                j: int,
            |
                #![trigger rs[j]]
                0 <= j < rs.len() && rule_text@ == rs[j].formula_string@ && (forall|k: int|
                    0 <= k < rs[j].output.spec_find_nodes(NodeFilter::Vars).len()
                        ==> final(variables).contains(
                        (#[trigger] rs[j].output.spec_find_nodes(NodeFilter::Vars)[k])->Var_0,
                    ) && final(variables).spec_get(
                        rs[j].output.spec_find_nodes(NodeFilter::Vars)[k]->Var_0,
                    ).locked))
        }),
        exists|fuel: nat|
            #![trigger spec_resolve(old(variables).list@, path_texts(old_rules@), query, fuel)]
            ({
                let m = spec_resolve(old(variables).list@, path_texts(old_rules@), query, fuel);
                &&& m.0 is Some
                &&& final(variables).list@ == m.1
                &&& (m.0->Some_0 matches Ok(b) ==> (r matches Ok(p) && p.0 == b))
                &&& (m.0->Some_0 is Err ==> r is Err)
            }),
    decreases query_measure(*old(variables), old_rules@),
{
    let ghost v0 = *variables;
    let ghost h0 = history@;
    let ghost rs0 = old(variables).spec_get(query).rules@;
    let ghost env0 = old(variables).value_map();
    let mut hist = history;
    let rules: Vec<Rule> = match variables.get(query) {
        Some(v) => crate::kb::clone_rules(&v.rules),
        None => {
            proof {
                assert(false);
            }
            Vec::new()
        },
    };
    // A fact already being derived along the current path loops.
    let mut ci: usize = 0;
    while ci < rules.len()
        invariant
            ci <= rules@.len(),
            rules@ == rs0,
            *variables == v0,
            hist@ == h0,
            v0 == *old(variables),
            kb_inv(v0),
            v0.contains(query),
            rs0 == v0.spec_get(query).rules@,
            forall|j: int|
                0 <= j < ci ==> !spec_path_contains(old_rules@, (#[trigger] rs0[j]).formula_string@),
        decreases rules@.len() - ci,
    {
        if path_contains(old_rules, &rules[ci].formula_string) {
            proof {
                assert(spec_path_contains(old_rules@, (rs0[ci as int]).formula_string@));
                assert(!no_path_hit(rs0, old_rules@));
                lemma_s_bridge(v0);
                lemma_path_texts_bridge(old_rules@, rs0[ci as int].formula_string@);
                assert(s_path_hit(rs0, path_texts(old_rules@))) by {
                    assert(path_texts(old_rules@).contains(rs0[ci as int].formula_string@));
                }
                assert(s_get(old(variables).list@, query).rules@ == rs0);
                assert(spec_resolve(old(variables).list@, path_texts(old_rules@), query, 1nat)
                    == (Some(Err::<bool, ()>(())), old(variables).list@));
            }
            return Err(cycle_err());
        }
        ci = ci + 1;
    }
    // A locked fact is answered from memory.
    let (q_locked, q_value) = match variables.get(query) {
        Some(v) => (v.locked, v.value),
        None => {
            proof {
                assert(false);
            }
            (false, false)
        },
    };
    if q_locked {
        hist.push(TraceStep::Cached { fact: query });
        proof {
            lemma_s_bridge(v0);
            lemma_no_hit_bridge(old_rules@, rs0);
            assert(s_get(old(variables).list@, query).rules@ == rs0);
            assert(spec_resolve(old(variables).list@, path_texts(old_rules@), query, 1nat) == (
                Some(Ok::<bool, ()>(old(variables).spec_get(query).value)),
                old(variables).list@,
            ));
        }
        return Ok((q_value, hist));
    }
    // A fact without rules defaults to false, locked.
    if rules.len() == 0 {
        let _ = variables.set_value_locked(query, false, true);
        hist.push(TraceStep::Defaulted { fact: query });
        proof {
            lemma_shape_from_updates(v0, *variables);
            lemma_same_shape_inv(v0, *variables);
            lemma_s_bridge(v0);
            lemma_no_hit_bridge(old_rules@, rs0);
            assert(s_get(old(variables).list@, query).rules@ == rs0);
            lemma_s_set_bridge(v0, *variables, query, false, true);
            assert(variables.list@ == s_set(old(variables).list@, query, false, true));
            assert(spec_resolve(old(variables).list@, path_texts(old_rules@), query, 1nat) == (
                Some(Ok::<bool, ()>(false)),
                s_set(old(variables).list@, query, false, true),
            ));
        }
        return Ok((false, hist));
    }
    let ghost all_locked = all_inputs_locked(rs0, v0);
    let ghost mut bound: nat = 0;
    let mut i: usize = 0;
    while i < rules.len()
        invariant
            kb_inv(*variables),
            variables.contains(query),
            same_shape(v0, *variables),
            locks_monotone(v0, *variables),
            rules@ == rs0,
            rs0.len() > 0,
            i <= rs0.len(),
            v0 == *old(variables),
            kb_inv(v0),
            v0.contains(query),
            rs0 == v0.spec_get(query).rules@,
            !v0.spec_get(query).locked,
            no_path_hit(rs0, old_rules@),
            env0 == v0.value_map(),
            all_locked == all_inputs_locked(rs0, v0),
            all_locked ==> *variables == v0 && hist@ == h0,
            all_locked ==> forall|j: int|
                0 <= j < i ==> !(#[trigger] rs0[j]).input.eval_env(env0),
            hist@.len() >= h0.len(),
            hist@.take(h0.len() as int) == h0,
            forall|f: nat|
                f >= bound ==> #[trigger] spec_try_rules(
                    variables.list@,
                    path_texts(old_rules@),
                    query,
                    rs0,
                    i as int,
                    f,
                ) == spec_try_rules(v0.list@, path_texts(old_rules@), query, rs0, 0, f),
        decreases rs0.len() - i,
    {
        let input_vars: Vec<Operator> = {
            let r_i = &rules[i];
            r_i.input.find_nodes(NodeFilter::Vars)
        };
        proof {
            lemma_same_shape_inv(v0, *variables);
            lemma_rule_facts(*variables, query, i as int);
        }
        let ghost s_inner = variables.list@;
        let ghost p2g = path_texts(old_rules@).push(rs0[i as int].formula_string@);
        let ghost mut bound2: nat = 0;
        proof {
            assert(forall|f: nat|
                f >= bound ==> #[trigger] spec_try_rules(
                    s_inner,
                    path_texts(old_rules@),
                    query,
                    rs0,
                    i as int,
                    f,
                ) == spec_try_rules(v0.list@, path_texts(old_rules@), query, rs0, 0, f));
        }
        let mut rule_failed = false;
        let mut k: usize = 0;
        while k < input_vars.len() && !rule_failed
            invariant
                kb_inv(*variables),
                variables.contains(query),
                same_shape(v0, *variables),
                locks_monotone(v0, *variables),
                rules@ == rs0,
                rs0.len() > 0,
                i < rs0.len(),
                k <= input_vars@.len(),
                input_vars@ == rs0[i as int].input.spec_find_nodes(NodeFilter::Vars),
                v0 == *old(variables),
                kb_inv(v0),
                v0.contains(query),
                rs0 == v0.spec_get(query).rules@,
                !v0.spec_get(query).locked,
                no_path_hit(rs0, old_rules@),
                env0 == v0.value_map(),
                all_locked == all_inputs_locked(rs0, v0),
                all_locked ==> *variables == v0 && hist@ == h0 && !rule_failed,
                rule_failed ==> i + 1 < rs0.len(),
                hist@.len() >= h0.len(),
                hist@.take(h0.len() as int) == h0,
                !rule_failed ==> forall|f: nat|
                    f >= bound2 ==> #[trigger] spec_resolve_inputs(
                        variables.list@,
                        p2g,
                        input_vars@,
                        k as int,
                        f,
                    ) == spec_resolve_inputs(s_inner, p2g, input_vars@, 0, f),
                rule_failed ==> forall|f: nat|
                    f >= bound2 ==> #[trigger] spec_resolve_inputs(
                        s_inner,
                        p2g,
                        input_vars@,
                        0,
                        f,
                    ) == (Some(Err::<(), ()>(())), variables.list@),
            decreases input_vars@.len() - k + (if rule_failed {
                0int
            } else {
                1int
            }),
        {
            proof {
                lemma_same_shape_inv(v0, *variables);
                lemma_rule_facts(*variables, query, i as int);
            }
            let c = match input_vars[k] {
                Operator::Var(ch) => ch,
                _ => {
                    proof {
                        assert(false);
                    }
                    '/'
                },
            };
            let c_locked = match variables.get(c) {
                Some(v) => v.locked,
                None => {
                    proof {
                        assert(false);
                    }
                    false
                },
            };
            if !c_locked {
                proof {
                    if all_locked {
                        assert(rule_inputs_locked(rs0[i as int], v0));
                        assert(v0.contains(c) && v0.spec_get(c).locked);
                        assert(false);
                    }
                }
                let mut new_path = clone_strings(old_rules);
                let text_copy = {
                    let r_i = &rules[i];
                    r_i.formula_string.clone()
                };
                new_path.push(text_copy);
                let hist_copy = clone_trace(&hist);
                let ghost v_before = *variables;
                let ghost h_before = hist@;
                proof {
                    // The rule's text is a stored text not yet on the path,
                    // so the path grows within a fixed finite set: the
                    // recursion terminates.
                    lemma_same_shape_texts(v0.list@, variables.list@);
                    assert(all_texts(*variables).contains(rs0[i as int].formula_string@));
                    lemma_measure_decreases(*variables, old_rules@, rules@[i as int].formula_string);
                    assert(query_measure(*variables, new_path@) < query_measure(v0, old_rules@));
                }
                match search_query(c, variables, &new_path, hist_copy) {
                    Ok(rp) => {
                        hist = rp.1;
                        proof {
                            lemma_shape_trans(v0, v_before, *variables);
                            lemma_locks_trans(v0, v_before, *variables);
                            lemma_same_shape_inv(v0, *variables);
                            assert(hist@.take(h0.len() as int) =~= h0);
                            let fc = choose|fuel: nat|
                                #![trigger spec_resolve(
                                    v_before.list@,
                                    path_texts(new_path@),
                                    c,
                                    fuel,
                                )]
                                ({
                                    let m = spec_resolve(
                                        v_before.list@,
                                        path_texts(new_path@),
                                        c,
                                        fuel,
                                    );
                                    &&& m.0 is Some
                                    &&& variables.list@ == m.1
                                    &&& (m.0->Some_0 matches Ok(b) ==> b == rp.0)
                                    &&& !(m.0->Some_0 is Err)
                                });
                            assert(path_texts(new_path@) =~= p2g);
                            let sb = v_before.list@;
                            lemma_s_bridge(v_before);
                            bound2 = if bound2 >= fc + 1 {
                                bound2
                            } else {
                                fc + 1
                            };
                            assert forall|f: nat| f >= bound2 implies #[trigger] spec_resolve_inputs(
                                variables.list@,
                                p2g,
                                input_vars@,
                                k as int + 1,
                                f,
                            ) == spec_resolve_inputs(s_inner, p2g, input_vars@, 0, f) by {
                                lemma_resolve_fuel_mono(sb, p2g, c, fc, (f - 1) as nat);
                                lemma_inputs_step_rec(sb, p2g, input_vars@, k as int, f);
                                assert(spec_resolve_inputs(sb, p2g, input_vars@, k as int, f)
                                    == spec_resolve_inputs(s_inner, p2g, input_vars@, 0, f));
                            }
                        }
                    },
                    Err(e) => {
                        proof {
                            let fc = choose|fuel: nat|
                                #![trigger spec_resolve(
                                    v_before.list@,
                                    path_texts(new_path@),
                                    c,
                                    fuel,
                                )]
                                ({
                                    let m = spec_resolve(
                                        v_before.list@,
                                        path_texts(new_path@),
                                        c,
                                        fuel,
                                    );
                                    &&& m.0 is Some
                                    &&& variables.list@ == m.1
                                    &&& m.0->Some_0 is Err
                                });
                            assert(path_texts(new_path@) =~= p2g);
                            let sb = v_before.list@;
                            lemma_s_bridge(v_before);
                            bound2 = if bound2 >= fc + 1 {
                                bound2
                            } else {
                                fc + 1
                            };
                            assert forall|f: nat| f >= bound2 implies #[trigger] spec_resolve_inputs(
                                s_inner,
                                p2g,
                                input_vars@,
                                0,
                                f,
                            ) == (Some(Err::<(), ()>(())), variables.list@) by {
                                lemma_resolve_fuel_mono(sb, p2g, c, fc, (f - 1) as nat);
                                lemma_inputs_step_rec(sb, p2g, input_vars@, k as int, f);
                                assert(spec_resolve_inputs(sb, p2g, input_vars@, k as int, f)
                                    == spec_resolve_inputs(s_inner, p2g, input_vars@, 0, f));
                            }
                        }
                        if i == rules.len() - 1 {
                            proof {
                                let fb: nat = if bound >= bound2 {
                                    bound
                                } else {
                                    bound2
                                };
                                assert(spec_resolve_inputs(s_inner, p2g, input_vars@, 0, fb) == (
                                    Some(Err::<(), ()>(())),
                                    variables.list@,
                                ));
                                lemma_try_unfold_fail(
                                    s_inner,
                                    path_texts(old_rules@),
                                    query,
                                    rs0,
                                    i as int,
                                    fb,
                                    variables.list@,
                                );
                                assert(spec_try_rules(
                                    v0.list@,
                                    path_texts(old_rules@),
                                    query,
                                    rs0,
                                    0,
                                    fb,
                                ) == (Some(Err::<bool, ()>(())), variables.list@));
                                lemma_resolve_unfold(v0, old_rules@, query, fb);
                                assert(spec_resolve(
                                    old(variables).list@,
                                    path_texts(old_rules@),
                                    query,
                                    (fb + 1) as nat,
                                ) == (Some(Err::<bool, ()>(())), variables.list@));
                            }
                            return Err(e);
                        }
                        rule_failed = true;
                    },
                }
            } else {
                proof {
                    lemma_s_bridge(*variables);
                    assert forall|f: nat| f >= bound2 implies #[trigger] spec_resolve_inputs(
                        variables.list@,
                        p2g,
                        input_vars@,
                        k as int + 1,
                        f,
                    ) == spec_resolve_inputs(s_inner, p2g, input_vars@, 0, f) by {
                        lemma_inputs_step_skip(variables.list@, p2g, input_vars@, k as int, f);
                    }
                }
            }
            k = k + 1;
        }
        if !rule_failed {
            proof {
                lemma_same_shape_inv(v0, *variables);
                lemma_rule_facts(*variables, query, i as int);
                lemma_enrich_eval(rs0[i as int].input, variables.value_map());
            }
            let ghost s_eval = variables.list@;
            proof {
                lemma_s_bridge(*variables);
                assert forall|f: nat| f >= bound2 implies #[trigger] spec_resolve_inputs(
                    s_inner,
                    p2g,
                    input_vars@,
                    0,
                    f,
                ) == (Some(Ok::<(), ()>(())), s_eval) by {
                    assert(spec_resolve_inputs(
                        s_eval,
                        p2g,
                        input_vars@,
                        input_vars@.len() as int,
                        f,
                    ) == (Some(Ok::<(), ()>(())), s_eval));
                    assert(spec_resolve_inputs(s_eval, p2g, input_vars@, k as int, f)
                        == spec_resolve_inputs(s_inner, p2g, input_vars@, 0, f));
                }
            }
            let enriched = {
                let r_i = &rules[i];
                r_i.input.enrich(variables)
            };
            let fired = enriched.eval();
            proof {
                assert(s_value_map(s_eval) == variables.value_map());
                assert(fired == mirror_fired(s_eval, rs0[i as int]));
            }
            if fired {
                let outputs: Vec<Operator> = {
                    let r_i = &rules[i];
                    r_i.output.find_nodes(NodeFilter::Vars)
                };
                let ghost v_fire = *variables;
                let mut m: usize = 0;
                while m < outputs.len()
                    invariant
                        kb_inv(*variables),
                        variables.contains(query),
                        same_shape(v0, *variables),
                        same_shape(v_fire, *variables),
                        locks_monotone(v0, *variables),
                        locks_monotone(v_fire, *variables),
                        rules@ == rs0,
                        i < rs0.len(),
                        m <= outputs@.len(),
                        outputs@ == rs0[i as int].output.spec_find_nodes(NodeFilter::Vars),
                        v0 == *old(variables),
                        kb_inv(v0),
                        kb_inv(v_fire),
                        v0.contains(query),
                        rs0 == v0.spec_get(query).rules@,
                        !v0.spec_get(query).locked,
                        no_path_hit(rs0, old_rules@),
                        env0 == v0.value_map(),
                        all_locked == all_inputs_locked(rs0, v0),
                        all_locked ==> forall|j: int|
                            0 <= j < i ==> !(#[trigger] rs0[j]).input.eval_env(env0),
                        all_locked ==> rs0[i as int].input.eval_env(env0),
                        forall|k2: int|
                            0 <= k2 < outputs@.len() ==> (#[trigger] outputs@[k2]) is Var
                                && v_fire.contains(outputs@[k2]->Var_0),
                        forall|n: int|
                            0 <= n < m ==> {
                                let d = (#[trigger] outputs@[n])->Var_0;
                                &&& variables.contains(d)
                                &&& variables.spec_get(d).locked
                            },
                        forall|ch: char|
                            #![trigger variables.spec_get(ch)]
                            v_fire.contains(ch) && !v_fire.spec_get(ch).locked
                                && variables.contains(ch) && variables.spec_get(ch).locked
                                ==> variables.spec_get(ch).value == true,
                        all_locked ==> v_fire == v0 && hist@ == h0,
                        !all_locked ==> hist@.len() >= h0.len() && hist@.take(
                            h0.len() as int,
                        ) == h0,
                        spec_lock_outputs(v_fire.list@, outputs@, 0) == spec_lock_outputs(
                            variables.list@,
                            outputs@,
                            m as int,
                        ),
                    decreases outputs@.len() - m,
                {
                    let d = match outputs[m] {
                        Operator::Var(ch) => ch,
                        _ => {
                            proof {
                                assert(false);
                            }
                            '/'
                        },
                    };
                    proof {
                        lemma_same_shape_inv(v_fire, *variables);
                    }
                    let d_locked = match variables.get(d) {
                        Some(v) => v.locked,
                        None => {
                            proof {
                                assert(false);
                            }
                            false
                        },
                    };
                    let ghost v_step = *variables;
                    if !d_locked {
                        let _ = variables.set_value_locked(d, true, true);
                        proof {
                            lemma_shape_from_updates(v_step, *variables);
                            lemma_shape_trans(v0, v_step, *variables);
                            lemma_shape_trans(v_fire, v_step, *variables);
                            lemma_locks_trans(v0, v_step, *variables);
                            lemma_locks_trans(v_fire, v_step, *variables);
                            lemma_same_shape_inv(v_step, *variables);
                        }
                    }
                    proof {
                        assert forall|n: int| 0 <= n < m + 1 implies {
                            let dn = (#[trigger] outputs@[n])->Var_0;
                            &&& variables.contains(dn)
                            &&& variables.spec_get(dn).locked
                        } by {
                            let dn = outputs@[n]->Var_0;
                            if n < m {
                                if dn == d {
                                    assert(variables.spec_get(dn).locked);
                                } else {
                                    assert(variables.spec_get(dn) == v_step.spec_get(dn));
                                }
                            } else {
                                assert(dn == d);
                            }
                        }
                        assert forall|ch: char|
                            #![trigger variables.spec_get(ch)]
                            v_fire.contains(ch) && !v_fire.spec_get(ch).locked
                                && variables.contains(ch) && variables.spec_get(ch).locked
                            implies variables.spec_get(ch).value == true by {
                            if ch == d {
                                if d_locked {
                                    assert(variables.spec_get(ch) == v_step.spec_get(ch));
                                }
                            } else {
                                assert(variables.spec_get(ch) == v_step.spec_get(ch));
                            }
                        }
                        lemma_s_bridge(v_step);
                        lemma_lock_outputs_step(v_step.list@, outputs@, m as int);
                        if !d_locked {
                            lemma_s_set_bridge(v_step, *variables, d, true, true);
                            assert(spec_lock_outputs(v_step.list@, outputs@, m as int)
                                == spec_lock_outputs(variables.list@, outputs@, m as int + 1));
                        } else {
                            assert(spec_lock_outputs(v_step.list@, outputs@, m as int)
                                == spec_lock_outputs(variables.list@, outputs@, m as int + 1));
                        }
                    }
                    m = m + 1;
                }
                proof {
                    lemma_same_shape_inv(v0, *variables);
                    lemma_rule_facts(v0, query, i as int);
                    let ov = rs0[i as int].output.spec_find_nodes(NodeFilter::Vars);
                    let kq = choose|kq: int| 0 <= kq < ov.len() && ov[kq] == Operator::Var(query);
                    assert(outputs@[kq]->Var_0 == query);
                    assert(variables.spec_get(query).locked);
                    if all_locked {
                        assert(v_fire == v0);
                        assert(rs0[i as int].input.eval_env(env0));
                        lemma_first_true_at(rs0, env0, i as int);
                        assert(!v0.spec_get(query).locked);
                        assert(variables.spec_get(query).value == true);
                    }
                }
                let qv = match variables.get(query) {
                    Some(v) => v.value,
                    None => {
                        proof {
                            assert(false);
                        }
                        false
                    },
                };
                let text = {
                    let r_i = &rules[i];
                    r_i.formula_string.clone()
                };
                hist.push(TraceStep::Derived { rule_text: text, value: true });
                proof {
                    assert(hist@.take(h0.len() as int) =~= h0);
                    assert(hist@.last() == TraceStep::Derived { rule_text: text, value: true });
                    assert(text@ == rs0[i as int].formula_string@);
                    assert forall|k: int|
                        0 <= k < rs0[i as int].output.spec_find_nodes(NodeFilter::Vars).len()
                        implies variables.contains(
                        (#[trigger] rs0[i as int].output.spec_find_nodes(NodeFilter::Vars)[k])->Var_0,
                    ) && variables.spec_get(
                        rs0[i as int].output.spec_find_nodes(NodeFilter::Vars)[k]->Var_0,
                    ).locked by {
                        assert(outputs@[k] == rs0[i as int].output.spec_find_nodes(
                            NodeFilter::Vars,
                        )[k]);
                    }
                    assert(variables.contains(query));
                    assert(variables.spec_get(query).locked);
                    assert(qv == variables.spec_get(query).value);
                    assert(hist@.len() > h0.len());
                    assert(no_path_hit(rs0, old_rules@));
                    assert(!v0.spec_get(query).locked);
                    if all_locked {
                        assert(first_true_rule(rs0, env0) == Some(i as int));
                        assert(text == rs0[i as int].formula_string);
                        assert(hist@ == h0.push(
                            TraceStep::Derived {
                                rule_text: rs0[i as int].formula_string,
                                value: true,
                            },
                        ));
                        assert(qv == true);
                    }
                    let fb: nat = if bound >= bound2 {
                        bound
                    } else {
                        bound2
                    };
                    assert(spec_resolve_inputs(s_inner, p2g, input_vars@, 0, fb) == (
                        Some(Ok::<(), ()>(())),
                        s_eval,
                    ));
                    assert(spec_lock_outputs(variables.list@, outputs@, outputs@.len() as int)
                        == variables.list@);
                    assert(spec_lock_outputs(v_fire.list@, outputs@, 0) == variables.list@);
                    assert(spec_lock_outputs(
                        s_eval,
                        rs0[i as int].output.spec_find_nodes(NodeFilter::Vars),
                        0,
                    ) == variables.list@) by {
                        assert(v_fire.list@ == s_eval);
                    }
                    lemma_try_unfold_fired(
                        s_inner,
                        path_texts(old_rules@),
                        query,
                        rs0,
                        i as int,
                        fb,
                        s_eval,
                    );
                    lemma_s_bridge(*variables);
                    assert(s_get(variables.list@, query).value == qv);
                    assert(spec_try_rules(
                        v0.list@,
                        path_texts(old_rules@),
                        query,
                        rs0,
                        0,
                        fb,
                    ) == (Some(Ok::<bool, ()>(qv)), variables.list@));
                    lemma_resolve_unfold(v0, old_rules@, query, fb);
                    assert(spec_resolve(
                        old(variables).list@,
                        path_texts(old_rules@),
                        query,
                        (fb + 1) as nat,
                    ) == (Some(Ok::<bool, ()>(qv)), variables.list@));
                }
                return Ok((qv, hist));
            }
            proof {
                if all_locked {
                    assert(*variables == v0);
                    assert(!rs0[i as int].input.eval_env(env0));
                }
                let fb2: nat = if bound >= bound2 {
                    bound
                } else {
                    bound2
                };
                bound = fb2;
                assert forall|f: nat| f >= bound implies #[trigger] spec_try_rules(
                    variables.list@,
                    path_texts(old_rules@),
                    query,
                    rs0,
                    i as int + 1,
                    f,
                ) == spec_try_rules(v0.list@, path_texts(old_rules@), query, rs0, 0, f) by {
                    assert(spec_resolve_inputs(s_inner, p2g, input_vars@, 0, f) == (
                        Some(Ok::<(), ()>(())),
                        s_eval,
                    ));
                    lemma_try_unfold_notfired(
                        s_inner,
                        path_texts(old_rules@),
                        query,
                        rs0,
                        i as int,
                        f,
                        s_eval,
                    );
                    assert(s_eval == variables.list@);
                    assert(spec_try_rules(s_inner, path_texts(old_rules@), query, rs0, i as int, f)
                        == spec_try_rules(v0.list@, path_texts(old_rules@), query, rs0, 0, f));
                }
            }
        }
        proof {
            if rule_failed {
                let fb2: nat = if bound >= bound2 {
                    bound
                } else {
                    bound2
                };
                bound = fb2;
                assert forall|f: nat| f >= bound implies #[trigger] spec_try_rules(
                    variables.list@,
                    path_texts(old_rules@),
                    query,
                    rs0,
                    i as int + 1,
                    f,
                ) == spec_try_rules(v0.list@, path_texts(old_rules@), query, rs0, 0, f) by {
                    assert(spec_resolve_inputs(s_inner, p2g, input_vars@, 0, f) == (
                        Some(Err::<(), ()>(())),
                        variables.list@,
                    ));
                    lemma_try_unfold_fail(
                        s_inner,
                        path_texts(old_rules@),
                        query,
                        rs0,
                        i as int,
                        f,
                        variables.list@,
                    );
                    assert(spec_try_rules(s_inner, path_texts(old_rules@), query, rs0, i as int, f)
                        == spec_try_rules(v0.list@, path_texts(old_rules@), query, rs0, 0, f));
                }
            }
        }
        i = i + 1;
    }
    // No candidate rule fired: the fact falls to false and is locked.
    let ghost v_exit = *variables;
    proof {
        assert(forall|f: nat|
            f >= bound ==> #[trigger] spec_try_rules(
                v_exit.list@,
                path_texts(old_rules@),
                query,
                rs0,
                rs0.len() as int,
                f,
            ) == spec_try_rules(v0.list@, path_texts(old_rules@), query, rs0, 0, f));
    }
    let q_locked2 = match variables.get(query) {
        Some(v) => v.locked,
        None => {
            proof {
                assert(false);
            }
            false
        },
    };
    if !q_locked2 {
        let ghost v_step = *variables;
        let _ = variables.set_value_locked(query, false, true);
        proof {
            lemma_shape_from_updates(v_step, *variables);
            lemma_shape_trans(v0, v_step, *variables);
            lemma_locks_trans(v0, v_step, *variables);
            lemma_same_shape_inv(v_step, *variables);
        }
    }
    let qv = match variables.get(query) {
        Some(v) => v.value,
        None => {
            proof {
                assert(false);
            }
            false
        },
    };
    let text = {
        let r_i = &rules[rules.len() - 1];
        r_i.formula_string.clone()
    };
    hist.push(TraceStep::Derived { rule_text: text, value: false });
    proof {
        assert(hist@.take(h0.len() as int) =~= h0);
        if all_locked {
            lemma_first_true_none(rs0, env0);
        }
        let fb: nat = bound;
        lemma_try_base(v_exit.list@, path_texts(old_rules@), query, rs0, fb);
        lemma_s_bridge(v_exit);
        if q_locked2 {
            assert(variables.list@ == v_exit.list@);
            assert(s_get(v_exit.list@, query).locked);
        } else {
            lemma_s_set_bridge(v_exit, *variables, query, false, true);
            assert(variables.list@ == s_set(v_exit.list@, query, false, true));
        }
        lemma_s_bridge(*variables);
        assert(s_get(variables.list@, query).value == qv);
        assert(spec_try_rules(
            v_exit.list@,
            path_texts(old_rules@),
            query,
            rs0,
            rs0.len() as int,
            fb,
        ) == (Some(Ok::<bool, ()>(qv)), variables.list@));
        assert(spec_try_rules(v0.list@, path_texts(old_rules@), query, rs0, 0, fb) == (
            Some(Ok::<bool, ()>(qv)),
            variables.list@,
        ));
        lemma_resolve_unfold(v0, old_rules@, query, fb);
        assert(spec_resolve(
            old(variables).list@,
            path_texts(old_rules@),
            query,
            (fb + 1) as nat,
        ) == (Some(Ok::<bool, ()>(qv)), variables.list@));
    }
    Ok((qv, hist))
}

} // verus!
