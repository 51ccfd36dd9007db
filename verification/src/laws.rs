use vstd::prelude::*;
use crate::models::{BTree, Operator, lemma_postfix_unique};

verus! {

/// A boolean-literal leaf.
pub open spec fn lit(b: bool) -> BTree {
    BTree { c1: None, c2: None, node: Operator::B(b) }
}

/// A binary connective over two boolean literals.
pub open spec fn bin(op: Operator, a: bool, b: bool) -> BTree {
    BTree { c1: Some(Box::new(lit(a))), c2: Some(Box::new(lit(b))), node: op }
}

/// Evaluation matches each connective's truth table on every combination of
/// literal operands: conjunction and disjunction are the standard
/// connectives, exclusive-or is boolean inequality, equivalence is boolean
/// equality, material implication `P >> Q` fails only for `P` true and `Q`
/// false, and negation inverts its single operand.
pub proof fn lemma_truth_tables(a: bool, b: bool)
    ensures
        bin(Operator::And, a, b).ground(),
        bin(Operator::And, a, b).eval_ground() == (a && b),
        bin(Operator::Or, a, b).eval_ground() == (a || b),
        bin(Operator::Xor, a, b).eval_ground() == (a != b),
        bin(Operator::Equal, a, b).eval_ground() == (a == b),
        bin(Operator::Material, a, b).eval_ground() == !(a && !b),
        (BTree { c1: None, c2: Some(Box::new(lit(a))), node: Operator::Not }).eval_ground() == !a,
{
    assert(lit(a).ground() && lit(b).ground());
    assert(lit(a).eval_ground() == a);
    assert(lit(b).eval_ground() == b);
    assert(bin(Operator::And, a, b).eval_ground() == (a && b));
    assert(bin(Operator::Or, a, b).eval_ground() == (a || b));
    assert(bin(Operator::Xor, a, b).eval_ground() == (a != b));
    assert(bin(Operator::Equal, a, b).eval_ground() == (a == b));
    assert(bin(Operator::Material, a, b).eval_ground() == !(a && !b));
    assert((BTree { c1: None, c2: Some(Box::new(lit(a))), node: Operator::Not }).eval_ground()
        == !a);
}

/// The serialisation of formula trees loses nothing: two well-formed trees
/// whose postfix serialisations agree, after any leading token sequences,
/// are the same tree after the same leading tokens.  Rebuilding a tree from
/// the tail of a serialised sequence therefore recovers exactly the tree
/// that was serialised.
pub proof fn lemma_serialisation_round_trip(
    t1: BTree,
    t2: BTree,
    rest1: Seq<Operator>,
    rest2: Seq<Operator>,
)
    requires
        t1.wf(),
        t2.wf(),
        rest1 + t1.postfix() == rest2 + t2.postfix(),
    ensures
        t1 == t2,
        rest1 == rest2,
{
    lemma_postfix_unique(t1, t2, rest1, rest2);
}

/// Substituting an environment of fact values into a well-formed formula
/// and evaluating the ground result agrees with evaluating the formula
/// directly under that environment: memoized fact values can be substituted
/// without changing any verdict.
pub proof fn lemma_substitution_sound(t: BTree, env: Map<char, bool>)
    requires
        t.wf(),
    ensures
        t.spec_enrich(env).ground(),
        t.spec_enrich(env).eval_ground() == t.eval_env(env),
{
    crate::kb::lemma_enrich_eval(t, env);
}

} // verus!
