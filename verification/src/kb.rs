use vstd::prelude::*;
use crate::models::{BTree, Operator, NodeFilter, clone_tree};

verus! {

/// An assignment of boolean values to fact names, kept as ordered pairs.
#[derive(Debug, PartialEq)]
pub struct Assignment {
    pub pairs: Vec<(char, bool)>,
}

/// The map that a pair sequence denotes; a later pair for the same fact
/// overrides an earlier one.
pub open spec fn pairs_map(s: Seq<(char, bool)>) -> Map<char, bool>
    decreases s.len(),
{
    if s.len() == 0 {
        Map::empty()
    } else {
        pairs_map(s.drop_last()).insert(s.last().0, s.last().1)
    }
}

impl Assignment {
    /// The assignment as a map.
    pub open spec fn as_map(self) -> Map<char, bool> {
        pairs_map(self.pairs@)
    }

    /// An empty assignment.
    pub fn new() -> (a: Assignment)
        ensures
            a.pairs@ == Seq::<(char, bool)>::empty(),
    {
        Assignment { pairs: Vec::new() }
    }

    /// Adds a pair.
    pub fn push_pair(&mut self, c: char, b: bool)
        ensures
            final(self).pairs@ == old(self).pairs@.push((c, b)),
    {
        self.pairs.push((c, b));
    }

    /// Looks a fact up in the assignment.
    pub fn get(&self, c: char) -> (r: Option<bool>)
        ensures
            r == if self.as_map().contains_key(c) {
                Some(self.as_map()[c])
            } else {
                None::<bool>
            },
    {
        let mut i: usize = self.pairs.len();
        proof {
            assert(self.pairs@.take(i as int) =~= self.pairs@);
        }
        while i > 0
            invariant
                i <= self.pairs@.len(),
                pairs_map(self.pairs@).contains_key(c) == pairs_map(
                    self.pairs@.take(i as int),
                ).contains_key(c),
                pairs_map(self.pairs@).contains_key(c) ==> pairs_map(self.pairs@)[c] == pairs_map(
                    self.pairs@.take(i as int),
                )[c],
            decreases i,
        {
            let p = self.pairs[i - 1];
            proof {
                assert(self.pairs@.take(i as int).drop_last() =~= self.pairs@.take(i as int - 1));
                assert(self.pairs@.take(i as int).last() == p);
            }
            if p.0 == c {
                return Some(p.1);
            }
            i = i - 1;
        }
        proof {
            assert(self.pairs@.take(0) =~= Seq::<(char, bool)>::empty());
        }
        None
    }
}

/// Copies a pair vector.
pub fn clone_pairs(v: &Vec<(char, bool)>) -> (r: Vec<(char, bool)>)
    ensures
        r@ == v@,
{
    let mut r: Vec<(char, bool)> = Vec::new();
    let mut i: usize = 0;
    while i < v.len()
        invariant
            i <= v@.len(),
            r@ == v@.take(i as int),
        decreases v@.len() - i,
    {
        r.push(v[i]);
        proof {
            assert(v@.take(i as int).push(v@[i as int]) =~= v@.take(i as int + 1));
        }
        i = i + 1;
    }
    proof {
        assert(v@.take(v@.len() as int) =~= v@);
    }
    r
}

impl Clone for Assignment {
    /// The copy holds the same pairs.
    fn clone(&self) -> (r: Self)
        ensures
            r.pairs@ == self.pairs@,
    {
        Assignment { pairs: clone_pairs(&self.pairs) }
    }
}

/// A registered rule: its antecedent, its consequent, and the display text it
/// was registered under.
#[derive(Debug, PartialEq)]
pub struct Rule {
    pub input: BTree,
    pub output: BTree,
    pub formula_string: String,
}

impl Rule {
    /// What registration admits: both sides well formed, the consequent made
    /// of conjunctions and fact references only, and no fact on both sides.
    pub open spec fn shape_ok(self) -> bool {
        &&& self.input.wf()
        &&& self.output.wf()
        &&& self.output.spec_find_nodes(NodeFilter::NonConjunctive).len() == 0
        &&& forall|op: Operator|
            self.input.spec_find_nodes(NodeFilter::Vars).contains(op)
                ==> !self.output.spec_find_nodes(NodeFilter::Vars).contains(op)
    }
}

impl Clone for Rule {
    /// The copy is equal to the original.
    fn clone(&self) -> (r: Self)
        ensures
            r == *self,
    {
        Rule {
            input: clone_tree(&self.input),
            output: clone_tree(&self.output),
            formula_string: self.formula_string.clone(),
        }
    }
}

/// Whether a rule list already holds a rule with the given display text.
pub open spec fn has_rule_text(rules: Seq<Rule>, text: Seq<char>) -> bool {
    exists|i: int| 0 <= i < rules.len() && (#[trigger] rules[i]).formula_string@ == text
}

/// Copies a rule vector.
pub fn clone_rules(v: &Vec<Rule>) -> (r: Vec<Rule>)
    ensures
        r@ == v@,
{
    let mut r: Vec<Rule> = Vec::new();
    let mut i: usize = 0;
    while i < v.len()
        invariant
            i <= v@.len(),
            r@ == v@.take(i as int),
        decreases v@.len() - i,
    {
        let item = v[i].clone();
        r.push(item);
        proof {
            assert(v@.take(i as int).push(v@[i as int]) =~= v@.take(i as int + 1));
        }
        i = i + 1;
    }
    proof {
        assert(v@.take(v@.len() as int) =~= v@);
    }
    r
}

/// A named boolean fact: its current value, whether that value is locked for
/// the session, whether a batch query asked for it, its display aliases, and
/// the rules whose consequent mentions it.
#[derive(Debug, PartialEq)]
pub struct Variable {
    pub value: bool,
    pub locked: bool,
    pub requested: bool,
    pub alias_true: Option<String>,
    pub alias_false: Option<String>,
    pub rules: Vec<Rule>,
}

impl Variable {
    /// A fresh fact: false, unlocked, not requested, no aliases, no rules.
    pub fn default() -> (v: Variable)
        ensures
            v.value == false,
            v.locked == false,
            v.requested == false,
            v.alias_true is None,
            v.alias_false is None,
            v.rules@ == Seq::<Rule>::empty(),
    {
        Variable {
            value: false,
            locked: false,
            requested: false,
            alias_true: None,
            alias_false: None,
            rules: Vec::new(),
        }
    }

    /// A fresh fact marked as requested.
    pub fn request() -> (v: Variable)
        ensures
            v.value == false,
            v.locked == false,
            v.requested == true,
            v.alias_true is None,
            v.alias_false is None,
            v.rules@ == Seq::<Rule>::empty(),
    {
        Variable {
            value: false,
            locked: false,
            requested: true,
            alias_true: None,
            alias_false: None,
            rules: Vec::new(),
        }
    }

    /// A fresh fact set to true and locked.
    pub fn insert() -> (v: Variable)
        ensures
            v.value == true,
            v.locked == true,
            v.requested == false,
            v.alias_true is None,
            v.alias_false is None,
            v.rules@ == Seq::<Rule>::empty(),
    {
        Variable {
            value: true,
            locked: true,
            requested: false,
            alias_true: None,
            alias_false: None,
            rules: Vec::new(),
        }
    }
}

impl Clone for Variable {
    /// The copy agrees with the original on every field.
    fn clone(&self) -> (r: Self)
        ensures
            r.value == self.value,
            r.locked == self.locked,
            r.requested == self.requested,
            r.alias_true == self.alias_true,
            r.alias_false == self.alias_false,
            r.rules@ == self.rules@,
    {
        Variable {
            value: self.value,
            locked: self.locked,
            requested: self.requested,
            alias_true: match &self.alias_true {
                Some(s) => Some(s.clone()),
                None => None,
            },
            alias_false: match &self.alias_false {
                Some(s) => Some(s.clone()),
                None => None,
            },
            rules: clone_rules(&self.rules),
        }
    }
}

/// The knowledge base: every known fact keyed by its name, in the order the
/// facts were first mentioned.
#[derive(Debug, PartialEq)]
pub struct Variables {
    pub list: Vec<(char, Variable)>,
}

impl Variables {
    /// The fact names, in insertion order.
    pub open spec fn keys(self) -> Seq<char> {
        self.list@.map_values(|p: (char, Variable)| p.0)
    }

    /// Every fact name occurs once.
    pub open spec fn wf(self) -> bool {
        forall|i: int, j: int|
            0 <= i < j < self.list@.len() ==> (#[trigger] self.list@[i]).0 != (
            #[trigger] self.list@[j]).0
    }

    /// Whether a fact of this name is known.
    pub open spec fn contains(self, c: char) -> bool {
        exists|i: int| 0 <= i < self.list@.len() && (#[trigger] self.list@[i]).0 == c
    }

    /// The position of a known fact.
    pub open spec fn key_at(self, c: char) -> int {
        choose|i: int| 0 <= i < self.list@.len() && (#[trigger] self.list@[i]).0 == c
    }

    /// The state of a known fact.
    pub open spec fn spec_get(self, c: char) -> Variable {
        self.list@[self.key_at(c)].1
    }

    /// The current values of all known facts.
    pub open spec fn value_map(self) -> Map<char, bool> {
        Map::new(|c: char| self.contains(c), |c: char| self.spec_get(c).value)
    }

    /// An empty knowledge base.
    pub fn new() -> (v: Variables)
        ensures
            v.list@ == Seq::<(char, Variable)>::empty(),
            v.wf(),
            forall|c: char| !v.contains(c),
    {
        Variables { list: Vec::new() }
    }

    /// The number of known facts.
    pub fn len(&self) -> (n: usize)
        ensures
            n == self.list@.len(),
    {
        self.list.len()
    }

    /// Forgets every fact and rule.
    pub fn clear(&mut self)
        ensures
            final(self).list@ == Seq::<(char, Variable)>::empty(),
            final(self).wf(),
            forall|c: char| !final(self).contains(c),
    {
        self.list.clear();
    }

    /// Finds the position of a fact.
    pub fn find_index(&self, c: char) -> (r: Option<usize>)
        requires
            self.wf(),
        ensures
            r is Some <==> self.contains(c),
            r matches Some(i) ==> i < self.list@.len() && self.list@[i as int].0 == c && i
                == self.key_at(c),
    {
        let mut i: usize = 0;
        while i < self.list.len()
            invariant
                i <= self.list@.len(),
                self.wf(),
                forall|j: int| 0 <= j < i ==> (#[trigger] self.list@[j]).0 != c,
            decreases self.list@.len() - i,
        {
            if self.list[i].0 == c {
                proof {
                    assert(self.contains(c));
                    let k = self.key_at(c);
                    assert(0 <= k < self.list@.len() && self.list@[k].0 == c);
                    if k < i {
                        assert(false);
                    } else if k > i {
                        assert(self.list@[i as int].0 != self.list@[k].0);
                        assert(false);
                    }
                }
                return Some(i);
            }
            i = i + 1;
        }
        proof {
            if self.contains(c) {
                let k = choose|k: int| 0 <= k < self.list@.len() && (#[trigger] self.list@[k]).0
                    == c;
                assert(self.list@[k].0 != c);
            }
        }
        None
    }

    /// Reads a fact.
    pub fn get(&self, c: char) -> (r: Option<&Variable>)
        requires
            self.wf(),
        ensures
            r is Some <==> self.contains(c),
            r matches Some(v) ==> *v == self.spec_get(c),
    {
        match self.find_index(c) {
            Some(i) => Some(&self.list[i].1),
            None => None,
        }
    }

    /// Adds a fact that is not yet known.
    pub fn insert_new(&mut self, c: char, var: Variable)
        requires
            old(self).wf(),
            !old(self).contains(c),
        ensures
            final(self).wf(),
            final(self).list@ == old(self).list@.push((c, var)),
            final(self).contains(c),
            final(self).spec_get(c) == var,
            forall|d: char| #[trigger] final(self).contains(d) == (old(self).contains(d) || d == c),
            forall|d: char|
                d != c && old(self).contains(d) ==> #[trigger] final(self).spec_get(d)
                    == old(self).spec_get(d),
    {
        let ghost s0 = self.list@;
        self.list.push((c, var));
        proof {
            let s1 = self.list@;
            let n = s0.len() as int;
            assert forall|i: int, j: int| 0 <= i < j < s1.len() implies (#[trigger] s1[i]).0 != (
            #[trigger] s1[j]).0 by {
                if j == n {
                    assert(s1[i] == s0[i]);
                    if s0[i].0 == c {
                        assert(old(self).contains(c));
                    }
                } else {
                    assert(s1[i] == s0[i] && s1[j] == s0[j]);
                }
            }
            assert(s1[n].0 == c);
            assert(self.contains(c));
            lemma_key_semantics(*self);
            lemma_key_semantics(*old(self));
            assert(self.key_at(c) == n);
            assert(self.spec_get(c) == var);
            assert forall|d: char| #[trigger] self.contains(d) == (old(self).contains(d) || d
                == c) by {
                if self.contains(d) {
                    let k = self.key_at(d);
                    if k < n {
                        assert(s0[k].0 == d);
                        assert(old(self).contains(d));
                    } else {
                        assert(d == c);
                    }
                }
                if old(self).contains(d) {
                    let k = old(self).key_at(d);
                    assert(s1[k].0 == d);
                    assert(self.contains(d));
                }
            }
            assert forall|d: char| d != c && old(self).contains(d) implies #[trigger] self.spec_get(
                d,
            ) == old(self).spec_get(d) by {
                let k = old(self).key_at(d);
                assert(s1[k].0 == d);
                assert(self.key_at(d) == k);
                assert(s1[k].1 == s0[k].1);
            }
        }
    }

    /// Replaces the state of the fact at a position, keeping its name.
    fn update_at(&mut self, i: usize, var: Variable)
        requires
            old(self).wf(),
            i < old(self).list@.len(),
        ensures
            final(self).list@ == old(self).list@.update(
                i as int,
                (old(self).list@[i as int].0, var),
            ),
            final(self).wf(),
            final(self).keys() == old(self).keys(),
            forall|d: char| #[trigger] final(self).contains(d) == old(self).contains(d),
            final(self).spec_get(old(self).list@[i as int].0) == var,
            forall|d: char|
                d != old(self).list@[i as int].0 && old(self).contains(d)
                    ==> #[trigger] final(self).spec_get(d) == old(self).spec_get(d),
    {
        let (k, _dropped) = self.list.remove(i);
        self.list.insert(i, (k, var));
        proof {
            assert(final(self).list@ =~= old(self).list@.update(i as int, (k, var)));
            lemma_vars_update(*old(self), *self, i as int, var);
        }
    }
}

impl Variables {
    /// Sets a known fact's value and lock state; yields false and changes
    /// nothing when the fact is unknown.
    pub fn set_value_locked(&mut self, c: char, value: bool, locked: bool) -> (ok: bool)
        requires
            old(self).wf(),
        ensures
            final(self).wf(),
            ok == old(self).contains(c),
            ok ==> final(self).list@ == old(self).list@.update(
                old(self).key_at(c),
                (c, final(self).spec_get(c)),
            ),
            final(self).keys() == old(self).keys(),
            forall|d: char| #[trigger] final(self).contains(d) == old(self).contains(d),
            !ok ==> *final(self) == *old(self),
            ok ==> final(self).spec_get(c) == (Variable {
                value,
                locked,
                ..old(self).spec_get(c)
            }),
            forall|d: char|
                d != c && old(self).contains(d) ==> #[trigger] final(self).spec_get(d)
                    == old(self).spec_get(d),
    {
        match self.find_index(c) {
            Some(i) => {
                let (k, mut v) = self.list.remove(i);
                v.value = value;
                v.locked = locked;
                self.list.insert(i, (k, v));
                proof {
                    assert(self.list@ =~= old(self).list@.update(
                        i as int,
                        (c, Variable { value, locked, ..old(self).spec_get(c) }),
                    ));
                    lemma_vars_update(
                        *old(self),
                        *self,
                        i as int,
                        Variable { value, locked, ..old(self).spec_get(c) },
                    );
                }
                true
            },
            None => false,
        }
    }

    /// Sets a known fact's requested mark; yields false and changes nothing
    /// when the fact is unknown.
    pub fn set_requested(&mut self, c: char, requested: bool) -> (ok: bool)
        requires
            old(self).wf(),
        ensures
            final(self).wf(),
            ok == old(self).contains(c),
            ok ==> final(self).list@ == old(self).list@.update(
                old(self).key_at(c),
                (c, final(self).spec_get(c)),
            ),
            final(self).keys() == old(self).keys(),
            forall|d: char| #[trigger] final(self).contains(d) == old(self).contains(d),
            !ok ==> *final(self) == *old(self),
            ok ==> final(self).spec_get(c) == (Variable { requested, ..old(self).spec_get(c) }),
            forall|d: char|
                d != c && old(self).contains(d) ==> #[trigger] final(self).spec_get(d)
                    == old(self).spec_get(d),
    {
        match self.find_index(c) {
            Some(i) => {
                let (k, mut v) = self.list.remove(i);
                v.requested = requested;
                self.list.insert(i, (k, v));
                proof {
                    assert(self.list@ =~= old(self).list@.update(
                        i as int,
                        (c, Variable { requested, ..old(self).spec_get(c) }),
                    ));
                    lemma_vars_update(
                        *old(self),
                        *self,
                        i as int,
                        Variable { requested, ..old(self).spec_get(c) },
                    );
                }
                true
            },
            None => false,
        }
    }

    /// Replaces a known fact's display aliases; yields false and changes
    /// nothing when the fact is unknown.
    pub fn set_aliases(&mut self, c: char, alias_true: Option<String>, alias_false: Option<String>)
        -> (ok: bool)
        requires
            old(self).wf(),
        ensures
            final(self).wf(),
            ok == old(self).contains(c),
            ok ==> final(self).list@ == old(self).list@.update(
                old(self).key_at(c),
                (c, final(self).spec_get(c)),
            ),
            final(self).keys() == old(self).keys(),
            forall|d: char| #[trigger] final(self).contains(d) == old(self).contains(d),
            !ok ==> *final(self) == *old(self),
            ok ==> final(self).spec_get(c) == (Variable {
                alias_true,
                alias_false,
                ..old(self).spec_get(c)
            }),
            forall|d: char|
                d != c && old(self).contains(d) ==> #[trigger] final(self).spec_get(d)
                    == old(self).spec_get(d),
    {
        match self.find_index(c) {
            Some(i) => {
                let (k, mut v) = self.list.remove(i);
                v.alias_true = alias_true;
                v.alias_false = alias_false;
                self.list.insert(i, (k, v));
                proof {
                    let ghost nv = final(self).list@[i as int].1;
                    assert(self.list@ =~= old(self).list@.update(i as int, (c, nv)));
                    lemma_vars_update(*old(self), *self, i as int, nv);
                }
                true
            },
            None => false,
        }
    }

    /// Appends a rule to a known fact unless a rule of the same display text
    /// is already registered there; yields false when the fact is unknown.
    pub fn push_rule(&mut self, c: char, rule: &Rule) -> (ok: bool)
        requires
            old(self).wf(),
        ensures
            final(self).wf(),
            ok == old(self).contains(c),
            ok ==> final(self).list@ == old(self).list@.update(
                old(self).key_at(c),
                (c, final(self).spec_get(c)),
            ),
            final(self).keys() == old(self).keys(),
            forall|d: char| #[trigger] final(self).contains(d) == old(self).contains(d),
            !ok ==> *final(self) == *old(self),
            ok ==> {
                let v0 = old(self).spec_get(c);
                let v1 = final(self).spec_get(c);
                &&& v1.value == v0.value
                &&& v1.locked == v0.locked
                &&& v1.requested == v0.requested
                &&& v1.alias_true == v0.alias_true
                &&& v1.alias_false == v0.alias_false
                &&& v1.rules@ == if has_rule_text(v0.rules@, rule.formula_string@) {
                    v0.rules@
                } else {
                    v0.rules@.push(*rule)
                }
            },
            forall|d: char|
                d != c && old(self).contains(d) ==> #[trigger] final(self).spec_get(d)
                    == old(self).spec_get(d),
    {
        match self.find_index(c) {
            Some(i) => {
                let (k, mut v) = self.list.remove(i);
                let mut j: usize = 0;
                let mut found = false;
                while j < v.rules.len() && !found
                    invariant
                        j <= v.rules@.len(),
                        found ==> has_rule_text(v.rules@, rule.formula_string@),
                        !found ==> forall|l: int|
                            0 <= l < j ==> (#[trigger] v.rules@[l]).formula_string@
                                != rule.formula_string@,
                    decreases v.rules@.len() - j + (if found {
                        0int
                    } else {
                        1int
                    }),
                {
                    if v.rules[j].formula_string == rule.formula_string {
                        found = true;
                    } else {
                        j = j + 1;
                    }
                }
                if !found {
                    proof {
                        if has_rule_text(v.rules@, rule.formula_string@) {
                            let l = choose|l: int|
                                0 <= l < v.rules@.len() && (#[trigger] v.rules@[l]).formula_string@
                                    == rule.formula_string@;
                            assert(v.rules@[l].formula_string@ != rule.formula_string@);
                        }
                    }
                    let copy = rule.clone();
                    v.rules.push(copy);
                }
                self.list.insert(i, (k, v));
                proof {
                    let ghost nv = final(self).list@[i as int].1;
                    assert(self.list@ =~= old(self).list@.update(i as int, (c, nv)));
                    lemma_vars_update(*old(self), *self, i as int, nv);
                }
                true
            },
            None => false,
        }
    }
}

/// The requested fact names of an entry sequence, in order.
pub open spec fn requested_of(s: Seq<(char, Variable)>) -> Seq<char>
    decreases s.len(),
{
    if s.len() == 0 {
        Seq::empty()
    } else {
        requested_of(s.drop_last()) + if s.last().1.requested {
            seq![s.last().0]
        } else {
            Seq::empty()
        }
    }
}

/// The total number of registered rules of an entry sequence.
pub open spec fn spec_rules_len(s: Seq<(char, Variable)>) -> int
    decreases s.len(),
{
    if s.len() == 0 {
        0
    } else {
        spec_rules_len(s.drop_last()) + s.last().1.rules@.len()
    }
}

impl Variables {
    /// The names of the facts marked for batch querying, in insertion order.
    pub fn requested_facts(&self) -> (r: Vec<char>)
        ensures
            r@ == requested_of(self.list@),
    {
        let mut r: Vec<char> = Vec::new();
        let mut i: usize = 0;
        proof {
            assert(self.list@.take(0) =~= Seq::<(char, Variable)>::empty());
        }
        while i < self.list.len()
            invariant
                i <= self.list@.len(),
                r@ == requested_of(self.list@.take(i as int)),
            decreases self.list@.len() - i,
        {
            proof {
                assert(self.list@.take(i as int + 1).drop_last() =~= self.list@.take(i as int));
                assert(self.list@.take(i as int + 1).last() == self.list@[i as int]);
            }
            if self.list[i].1.requested {
                r.push(self.list[i].0);
            }
            i = i + 1;
        }
        proof {
            assert(self.list@.take(self.list@.len() as int) =~= self.list@);
        }
        r
    }
}

/// The number of rules registered over all facts (a rule with several facts
/// in its consequent counts once per fact).
pub fn rules_len(variables: &Variables) -> (n: usize)
    requires
        spec_rules_len(variables.list@) <= usize::MAX,
    ensures
        n == spec_rules_len(variables.list@),
{
    let mut n: usize = 0;
    let mut i: usize = 0;
    proof {
        assert(variables.list@.take(0) =~= Seq::<(char, Variable)>::empty());
    }
    while i < variables.list.len()
        invariant
            i <= variables.list@.len(),
            n == spec_rules_len(variables.list@.take(i as int)),
            spec_rules_len(variables.list@) <= usize::MAX,
        decreases variables.list@.len() - i,
    {
        proof {
            assert(variables.list@.take(i as int + 1).drop_last() =~= variables.list@.take(
                i as int,
            ));
            assert(variables.list@.take(i as int + 1).last() == variables.list@[i as int]);
            lemma_rules_len_mono(variables.list@, i as int + 1);
        }
        n = n + variables.list[i].1.rules.len();
        i = i + 1;
    }
    proof {
        assert(variables.list@.take(variables.list@.len() as int) =~= variables.list@);
    }
    n
}

/// A prefix of an entry sequence never counts more rules than the whole.
proof fn lemma_rules_len_mono(s: Seq<(char, Variable)>, i: int)
    requires
        0 <= i <= s.len(),
    ensures
        spec_rules_len(s.take(i)) <= spec_rules_len(s),
        spec_rules_len(s.take(i)) >= 0,
    decreases s.len() - i,
{
    lemma_rules_len_nonneg(s.take(i));
    if i == s.len() {
        assert(s.take(i) =~= s);
    } else {
        lemma_rules_len_mono(s, i + 1);
        assert(s.take(i + 1).drop_last() =~= s.take(i));
    }
}

/// Rule counts are never negative.
proof fn lemma_rules_len_nonneg(s: Seq<(char, Variable)>)
    ensures
        spec_rules_len(s) >= 0,
    decreases s.len(),
{
    if s.len() > 0 {
        lemma_rules_len_nonneg(s.drop_last());
    }
}

impl BTree {
    /// The tree with every fact reference replaced by that fact's value under
    /// an environment; a missing fact counts as false.
    pub open spec fn spec_enrich(self, env: Map<char, bool>) -> BTree
        decreases self,
    {
        match self.node {
            Operator::Var(c) => BTree {
                c1: None,
                c2: None,
                node: Operator::B(env.contains_key(c) && env[c]),
            },
            _ => BTree {
                c1: match self.c1 {
                    Some(t) => Some(Box::new(t.spec_enrich(env))),
                    None => None,
                },
                c2: match self.c2 {
                    Some(t) => Some(Box::new(t.spec_enrich(env))),
                    None => None,
                },
                node: self.node,
            },
        }
    }

    /// Substitutes the knowledge base's current fact values into the tree.
    pub fn enrich(&self, variables: &Variables) -> (r: BTree)
        requires
            variables.wf(),
        ensures
            r == self.spec_enrich(variables.value_map()),
        decreases *self,
    {
        match self.node {
            Operator::Var(c) => {
                let val = match variables.get(c) {
                    Some(v) => v.value,
                    None => false,
                };
                BTree { c1: None, c2: None, node: Operator::B(val) }
            },
            _ => {
                let c1 = match &self.c1 {
                    Some(t) => Some(Box::new(t.enrich(variables))),
                    None => None,
                };
                let c2 = match &self.c2 {
                    Some(t) => Some(Box::new(t.enrich(variables))),
                    None => None,
                };
                BTree { c1, c2, node: self.node }
            },
        }
    }

    /// Substitutes an assignment's values into the tree.
    pub fn enrich_bool(&self, assignment: &Assignment) -> (r: BTree)
        ensures
            r == self.spec_enrich(assignment.as_map()),
        decreases *self,
    {
        match self.node {
            Operator::Var(c) => {
                let val = match assignment.get(c) {
                    Some(b) => b,
                    None => false,
                };
                BTree { c1: None, c2: None, node: Operator::B(val) }
            },
            _ => {
                let c1 = match &self.c1 {
                    Some(t) => Some(Box::new(t.enrich_bool(assignment))),
                    None => None,
                };
                let c2 = match &self.c2 {
                    Some(t) => Some(Box::new(t.enrich_bool(assignment))),
                    None => None,
                };
                BTree { c1, c2, node: self.node }
            },
        }
    }
}

/// Substituting an environment into a well-formed tree yields a ground tree
/// whose value is the tree's value under that environment.
pub proof fn lemma_enrich_eval(t: BTree, env: Map<char, bool>)
    requires
        t.wf(),
    ensures
        t.spec_enrich(env).ground(),
        t.spec_enrich(env).eval_ground() == t.eval_env(env),
    decreases t,
{
    match t.node {
        Operator::Not => {
            match t.c2 {
                Some(c) => {
                    lemma_enrich_eval(*c, env);
                },
                None => {},
            }
        },
        Operator::And | Operator::Or | Operator::Xor | Operator::Equal | Operator::Material => {
            match (t.c1, t.c2) {
                (Some(a), Some(b)) => {
                    lemma_enrich_eval(*a, env);
                    lemma_enrich_eval(*b, env);
                },
                _ => {},
            }
        },
        _ => {},
    }
}

/// In a well-formed knowledge base the chosen position of a known fact is
/// the only position holding its name.
pub proof fn lemma_key_semantics(v: Variables)
    requires
        v.wf(),
    ensures
        forall|i: int|
            0 <= i < v.list@.len() ==> v.contains((#[trigger] v.list@[i]).0) && v.key_at(
                v.list@[i].0,
            ) == i,
{
    assert forall|i: int| 0 <= i < v.list@.len() implies v.contains((#[trigger] v.list@[i]).0)
        && v.key_at(v.list@[i].0) == i by {
        let c = v.list@[i].0;
        assert(v.contains(c));
        let k = v.key_at(c);
        assert(0 <= k < v.list@.len() && v.list@[k].0 == c);
        if k < i {
            assert(v.list@[k].0 != v.list@[i].0);
        } else if k > i {
            assert(v.list@[i].0 != v.list@[k].0);
        }
    }
}

/// Updating one entry in place keeps the knowledge base well formed, keeps
/// every other fact unchanged, and stores the new state under the entry's
/// name.
pub proof fn lemma_vars_update(v1: Variables, v2: Variables, i: int, var: Variable)
    requires
        v1.wf(),
        0 <= i < v1.list@.len(),
        v2.list@ == v1.list@.update(i, (v1.list@[i].0, var)),
    ensures
        v2.wf(),
        v2.keys() == v1.keys(),
        forall|d: char| #[trigger] v2.contains(d) == v1.contains(d),
        v2.spec_get(v1.list@[i].0) == var,
        forall|d: char|
            d != v1.list@[i].0 && v1.contains(d) ==> #[trigger] v2.spec_get(d) == v1.spec_get(d),
{
    assert(v2.keys() =~= v1.keys());
    assert forall|a: int, b: int| 0 <= a < b < v2.list@.len() implies (#[trigger] v2.list@[a]).0
        != (#[trigger] v2.list@[b]).0 by {
        assert(v2.list@[a].0 == v1.list@[a].0);
        assert(v2.list@[b].0 == v1.list@[b].0);
        assert(v1.list@[a].0 != v1.list@[b].0);
    }
    assert forall|d: char| #[trigger] v2.contains(d) == v1.contains(d) by {
        if v1.contains(d) {
            let k = v1.key_at(d);
            assert(v2.list@[k].0 == d);
            assert(v2.contains(d));
        }
        if v2.contains(d) {
            let k = v2.key_at(d);
            assert(v1.list@[k].0 == d);
            assert(v1.contains(d));
        }
    }
    lemma_key_semantics(v1);
    lemma_key_semantics(v2);
    let c = v1.list@[i].0;
    assert(v2.list@[i].0 == c);
    assert(v2.key_at(c) == i);
    assert(v2.list@[i].1 == var);
    assert(v2.spec_get(c) == var);
    assert forall|d: char| d != v1.list@[i].0 && v1.contains(d) implies #[trigger] v2.spec_get(d)
        == v1.spec_get(d) by {
        let k = v1.key_at(d);
        assert(v2.list@[k].0 == d);
        assert(v2.key_at(d) == k);
        assert(v2.list@[k].1 == v1.list@[k].1);
    }
}

} // verus!

verus! {

/// Removing one rule from one fact keeps every name and every other rule
/// in place.
pub proof fn lemma_inv_remove_rule(v1: Variables, v2: Variables, c: char, j: int)
    requires
        v1.wf(),
        crate::algo::kb_inv(v1),
        v1.contains(c),
        0 <= j < v1.spec_get(c).rules@.len(),
        v2.list@.len() == v1.list@.len(),
        forall|i: int|
            #![trigger v2.list@[i]]
            0 <= i < v1.list@.len() ==> v2.list@[i].0 == v1.list@[i].0 && (v2.list@[i].1.rules@
                == v1.list@[i].1.rules@ || (i == v1.key_at(c) && v2.list@[i].1.rules@
                == v1.list@[i].1.rules@.remove(j))),
    ensures
        crate::algo::kb_inv(v2),
{
    lemma_key_semantics(v1);
    assert forall|d: char| #[trigger] v2.contains(d) == v1.contains(d) by {
        if v1.contains(d) {
            let k = v1.key_at(d);
            assert(v2.list@[k].0 == d);
        }
        if v2.contains(d) {
            let k = v2.key_at(d);
            assert(v1.list@[k].0 == d);
        }
    }
    assert forall|i: int, j2: int, k: int|
        #![trigger crate::algo::rule_vars(v2.list@[i].1.rules@[j2])[k]]
        0 <= i < v2.list@.len() && 0 <= j2 < v2.list@[i].1.rules@.len() && 0 <= k
            < crate::algo::rule_vars(v2.list@[i].1.rules@[j2]).len() implies v2.contains(
        crate::algo::rule_vars(v2.list@[i].1.rules@[j2])[k]->Var_0,
    ) by {
        if v2.list@[i].1.rules@ == v1.list@[i].1.rules@ {
            assert(v1.contains(crate::algo::rule_vars(v1.list@[i].1.rules@[j2])[k]->Var_0));
        } else {
            if j2 < j {
                assert(v2.list@[i].1.rules@[j2] == v1.list@[i].1.rules@[j2]);
                assert(v1.contains(crate::algo::rule_vars(v1.list@[i].1.rules@[j2])[k]->Var_0));
            } else {
                assert(v2.list@[i].1.rules@[j2] == v1.list@[i].1.rules@[j2 + 1]);
                assert(v1.contains(
                    crate::algo::rule_vars(v1.list@[i].1.rules@[j2 + 1])[k]->Var_0,
                ));
            }
        }
    }
    assert forall|i: int, j2: int|
        #![trigger v2.list@[i].1.rules@[j2]]
        0 <= i < v2.list@.len() && 0 <= j2 < v2.list@[i].1.rules@.len() implies {
        &&& v2.list@[i].1.rules@[j2].shape_ok()
        &&& v2.list@[i].1.rules@[j2].output.spec_find_nodes(
            crate::models::NodeFilter::Vars,
        ).contains(Operator::Var(v2.list@[i].0))
    } by {
        if v2.list@[i].1.rules@ == v1.list@[i].1.rules@ {
            assert(v1.list@[i].1.rules@[j2].shape_ok());
        } else {
            if j2 < j {
                assert(v2.list@[i].1.rules@[j2] == v1.list@[i].1.rules@[j2]);
                assert(v1.list@[i].1.rules@[j2].shape_ok());
            } else {
                assert(v2.list@[i].1.rules@[j2] == v1.list@[i].1.rules@[j2 + 1]);
                assert(v1.list@[i].1.rules@[j2 + 1].shape_ok());
            }
        }
    }
}

/// Deletes the `nb`-th registered rule, counting rule by rule through the
/// facts in store order with the first rule as 1, and yields the removed
/// rule's display text.  An index of zero or past the last rule removes
/// nothing.
#[verifier::loop_isolation(false)]
pub fn remove_rule(variables: &mut Variables, nb: usize) -> (r: Option<String>)
    requires
        crate::algo::kb_inv(*old(variables)),
        spec_rules_len(old(variables).list@) <= usize::MAX,
    ensures
        crate::algo::kb_inv(*final(variables)),
        (r is None) <==> (nb == 0 || nb > spec_rules_len(old(variables).list@)),
        r is None ==> *final(variables) == *old(variables),
        r matches Some(text) ==> exists|c: char, j: int|
            #![trigger old(variables).spec_get(c).rules@[j]]
            {
                &&& old(variables).contains(c)
                &&& 0 <= j < old(variables).spec_get(c).rules@.len()
                &&& text@ == old(variables).spec_get(c).rules@[j].formula_string@
                &&& final(variables).contains(c)
                &&& final(variables).spec_get(c).rules@ == old(variables).spec_get(
                    c,
                ).rules@.remove(j)
                &&& final(variables).spec_get(c).value == old(variables).spec_get(c).value
                &&& final(variables).spec_get(c).locked == old(variables).spec_get(c).locked
                &&& final(variables).spec_get(c).requested == old(variables).spec_get(c).requested
                &&& final(variables).spec_get(c).alias_true == old(variables).spec_get(
                    c,
                ).alias_true
                &&& final(variables).spec_get(c).alias_false == old(variables).spec_get(
                    c,
                ).alias_false
                &&& final(variables).keys() == old(variables).keys()
                &&& forall|d: char|
                    d != c && old(variables).contains(d) ==> #[trigger] final(variables).spec_get(
                        d,
                    ) == old(variables).spec_get(d)
            },
{
    let total = rules_len(variables);
    if nb == 0 || nb > total {
        return None;
    }
    let mut i: usize = 0;
    let mut e: usize = 0;
    proof {
        assert(variables.list@.take(0int) =~= Seq::<(char, Variable)>::empty());
    }
    while e < variables.list.len()
        invariant
            e <= variables.list@.len(),
            i == spec_rules_len(variables.list@.take(e as int)),
            i <= nb - 1,
            *variables == *old(variables),
            1 <= nb <= total,
            total == spec_rules_len(variables.list@),
        decreases variables.list@.len() - e,
    {
        let rl = variables.list[e].1.rules.len();
        let idx = nb - 1 - i;
        proof {
            assert(variables.list@.take(e as int + 1).drop_last() =~= variables.list@.take(
                e as int,
            ));
            assert(variables.list@.take(e as int + 1).last() == variables.list@[e as int]);
            lemma_rules_len_mono(variables.list@, e as int + 1);
        }
        if idx < rl {
            let ghost v1 = *variables;
            let (k, mut v) = variables.list.remove(e);
            let removed = v.rules.remove(idx);
            variables.list.insert(e, (k, v));
            proof {
                assert(variables.list@ =~= v1.list@.update(
                    e as int,
                    (k, variables.list@[e as int].1),
                ));
                lemma_key_semantics(v1);
                assert(v1.key_at(k) == e);
                lemma_vars_update(v1, *variables, e as int, variables.list@[e as int].1);
                lemma_inv_remove_rule(v1, *variables, k, idx as int);
                assert(v1.spec_get(k).rules@[idx as int].formula_string@
                    == removed.formula_string@);
            }
            return Some(removed.formula_string);
        }
        i = i + rl;
        e = e + 1;
    }
    proof {
        assert(variables.list@.take(variables.list@.len() as int) =~= variables.list@);
        assert(false);
    }
    None
}

} // verus!
