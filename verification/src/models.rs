use vstd::prelude::*;
use vstd::string::*;
use crate::utils::{str_eq, char_to_string};

verus! {

/// A token of the rule language: a connective, a delimiter, a rule separator,
/// a fact name, or a boolean literal.
#[derive(Debug, Clone, Copy, PartialEq, Eq, Structural, Hash)]
pub enum Operator {
    And,
    Or,
    Xor,
    Equal,
    Material,
    Not,
    Then,
    IfAndOnlyIf,
    Parentesis(bool),
    Var(char),
    B(bool),
}

/// The canonical text of a token, as the display layer prints it.
pub open spec fn spec_symbol(op: Operator) -> Seq<char> {
    match op {
        Operator::And => "&"@,
        Operator::Or => "|"@,
        Operator::Xor => "^"@,
        Operator::Equal => "="@,
        Operator::Material => ">>"@,
        Operator::Not => "!"@,
        Operator::Then => "=>"@,
        Operator::IfAndOnlyIf => "<=>"@,
        Operator::Parentesis(true) => "("@,
        Operator::Parentesis(false) => ")"@,
        Operator::Var(c) => seq![c],
        Operator::B(true) => "1"@,
        Operator::B(false) => "0"@,
    }
}

/// The token, if any, that a chunk of rule text denotes.
pub open spec fn token_of(s: Seq<char>) -> Option<Operator> {
    if s == "and"@ || s == "&"@ || s == "+"@ {
        Some(Operator::And)
    } else if s == "or"@ || s == "|"@ {
        Some(Operator::Or)
    } else if s == "xor"@ || s == "^"@ {
        Some(Operator::Xor)
    } else if s == "equal"@ || s == "="@ {
        Some(Operator::Equal)
    } else if s == "material"@ || s == ">>"@ {
        Some(Operator::Material)
    } else if s == "not"@ || s == "!"@ {
        Some(Operator::Not)
    } else if s == "then"@ || s == "=>"@ {
        Some(Operator::Then)
    } else if s == "if-and-only-if"@ || s == "<=>"@ {
        Some(Operator::IfAndOnlyIf)
    } else if s == "("@ {
        Some(Operator::Parentesis(true))
    } else if s == ")"@ {
        Some(Operator::Parentesis(false))
    } else {
        None
    }
}

impl Operator {
    /// Recognises an operator chunk; fact names and anything else yield `None`.
    pub fn from_str(string: &str) -> (r: Option<Operator>)
        ensures
            r == token_of(string@),
    {
        if str_eq(string, "and") || str_eq(string, "&") || str_eq(string, "+") {
            Some(Operator::And)
        } else if str_eq(string, "or") || str_eq(string, "|") {
            Some(Operator::Or)
        } else if str_eq(string, "xor") || str_eq(string, "^") {
            Some(Operator::Xor)
        } else if str_eq(string, "equal") || str_eq(string, "=") {
            Some(Operator::Equal)
        } else if str_eq(string, "material") || str_eq(string, ">>") {
            Some(Operator::Material)
        } else if str_eq(string, "not") || str_eq(string, "!") {
            Some(Operator::Not)
        } else if str_eq(string, "then") || str_eq(string, "=>") {
            Some(Operator::Then)
        } else if str_eq(string, "if-and-only-if") || str_eq(string, "<=>") {
            Some(Operator::IfAndOnlyIf)
        } else if str_eq(string, "(") {
            Some(Operator::Parentesis(true))
        } else if str_eq(string, ")") {
            Some(Operator::Parentesis(false))
        } else {
            None
        }
    }

    /// Renders the token back to its canonical text.
    pub fn symbol(&self) -> (s: String)
        ensures
            s@ == spec_symbol(*self),
    {
        match self {
            Operator::And => String::from_str("&"),
            Operator::Or => String::from_str("|"),
            Operator::Xor => String::from_str("^"),
            Operator::Equal => String::from_str("="),
            Operator::Material => String::from_str(">>"),
            Operator::Not => String::from_str("!"),
            Operator::Then => String::from_str("=>"),
            Operator::IfAndOnlyIf => String::from_str("<=>"),
            Operator::Parentesis(true) => String::from_str("("),
            Operator::Parentesis(false) => String::from_str(")"),
            Operator::Var(c) => char_to_string(*c),
            Operator::B(true) => String::from_str("1"),
            Operator::B(false) => String::from_str("0"),
        }
    }
}

/// One step of emptying the operator stack down to its innermost open
/// parenthesis, as a close parenthesis demands.
pub open spec fn rpn_pop_close(output: Seq<Operator>, stack: Seq<Operator>) -> Result<
    (Seq<Operator>, Seq<Operator>),
    Seq<char>,
>
    decreases stack.len(),
{
    if stack.len() == 0 {
        Err("unexpected closing delimiter: ')'"@)
    } else if stack.last() == Operator::Parentesis(true) {
        Ok((output, stack.drop_last()))
    } else {
        rpn_pop_close(output.push(stack.last()), stack.drop_last())
    }
}

/// Flushes the whole operator stack to the output; an open parenthesis still
/// on the stack is unmatched and an error.
pub open spec fn rpn_flush(output: Seq<Operator>, stack: Seq<Operator>) -> Result<
    Seq<Operator>,
    Seq<char>,
>
    decreases stack.len(),
{
    if stack.len() == 0 {
        Ok(output)
    } else if stack.last() == Operator::Parentesis(true) {
        Err("unclosed delimiter '('"@)
    } else {
        rpn_flush(output.push(stack.last()), stack.drop_last())
    }
}

/// Whether a token is a connective that takes part in precedence popping.
pub open spec fn is_connective(op: Operator) -> bool {
    match op {
        Operator::Not | Operator::And | Operator::Or | Operator::Xor | Operator::Equal
            | Operator::Material => true,
        _ => false,
    }
}

/// The binding strength of a connective: negation binds tightest, then
/// conjunction, exclusive-or, disjunction, material implication, and
/// equivalence loosest.
pub open spec fn priority(op: Operator) -> int {
    match op {
        Operator::Not => 5,
        Operator::And => 4,
        Operator::Xor => 3,
        Operator::Or => 2,
        Operator::Material => 1,
        _ => 0,
    }
}

/// An arriving binary connective first pops every pending connective of
/// higher or equal priority to the output; an open parenthesis or a
/// separator stops the popping.
pub open spec fn rpn_pop_prec(
    output: Seq<Operator>,
    stack: Seq<Operator>,
    op: Operator,
) -> (Seq<Operator>, Seq<Operator>)
    decreases stack.len(),
{
    if stack.len() == 0 {
        (output, stack)
    } else if is_connective(stack.last()) && priority(stack.last()) >= priority(op) {
        rpn_pop_prec(output.push(stack.last()), stack.drop_last(), op)
    } else {
        (output, stack)
    }
}

/// The infix-to-postfix reduction over a token sequence: operands pass to the
/// output, `Not` and open parentheses are pushed, a close parenthesis pops to
/// its match, a rule separator flushes the stack and starts it anew, and any
/// other binary operator first pops the pending connectives of higher or
/// equal priority and is then pushed.
pub open spec fn rpn_steps(
    input: Seq<Operator>,
    output: Seq<Operator>,
    stack: Seq<Operator>,
) -> Result<(Seq<Operator>, Seq<Operator>), Seq<char>>
    decreases input.len(),
{
    if input.len() == 0 {
        Ok((output, stack))
    } else {
        let op = input[0];
        let rest = input.drop_first();
        match op {
            Operator::Var(_) => rpn_steps(rest, output.push(op), stack),
            Operator::Parentesis(false) => match rpn_pop_close(output, stack) {
                Ok(os) => rpn_steps(rest, os.0, os.1),
                Err(e) => Err(e),
            },
            Operator::Not | Operator::Parentesis(true) => rpn_steps(rest, output, stack.push(op)),
            _ => {
                if output.len() == 0 {
                    Err("unexpected operator "@ + spec_symbol(op))
                } else {
                    match op {
                        Operator::IfAndOnlyIf | Operator::Then => match rpn_flush(output, stack) {
                            Ok(o) => rpn_steps(rest, o, seq![op]),
                            Err(e) => Err(e),
                        },
                        _ => {
                            let os = rpn_pop_prec(output, stack, op);
                            rpn_steps(rest, os.0, os.1.push(op))
                        },
                    }
                }
            },
        }
    }
}

/// The reverse-Polish form of a token sequence, or the error that the
/// reduction reports.
pub open spec fn spec_rpn(input: Seq<Operator>) -> Result<Seq<Operator>, Seq<char>> {
    match rpn_steps(input, Seq::empty(), Seq::empty()) {
        Ok(os) => rpn_flush(os.0, os.1),
        Err(e) => Err(e),
    }
}

/// When popping to an open parenthesis fails, the error is the one fixed
/// message.
pub proof fn lemma_pop_close_err(output: Seq<Operator>, stack: Seq<Operator>)
    ensures
        rpn_pop_close(output, stack) is Err ==> rpn_pop_close(output, stack)->Err_0
            == "unexpected closing delimiter: ')'"@,
    decreases stack.len(),
{
    if stack.len() > 0 && stack.last() != Operator::Parentesis(true) {
        lemma_pop_close_err(output.push(stack.last()), stack.drop_last());
    }
}

/// When flushing the stack fails, the error is the one fixed message.
pub proof fn lemma_flush_err(output: Seq<Operator>, stack: Seq<Operator>)
    ensures
        rpn_flush(output, stack) is Err ==> rpn_flush(output, stack)->Err_0
            == "unclosed delimiter '('"@,
    decreases stack.len(),
{
    if stack.len() > 0 && stack.last() != Operator::Parentesis(true) {
        lemma_flush_err(output.push(stack.last()), stack.drop_last());
    }
}

/// Pops operators to the output until the innermost open parenthesis is
/// found and discarded; yields false when there is none.
fn pop_until_open(output: &mut Vec<Operator>, stack: &mut Vec<Operator>) -> (r: bool)
    ensures
        match rpn_pop_close(old(output)@, old(stack)@) {
            Ok(os) => r && final(output)@ == os.0 && final(stack)@ == os.1,
            Err(_) => !r,
        },
    decreases old(stack)@.len(),
{
    match stack.pop() {
        None => false,
        Some(Operator::Parentesis(true)) => true,
        Some(ope) => {
            output.push(ope);
            pop_until_open(output, stack)
        },
    }
}

/// Flushes the whole stack to the output; yields false on an unmatched open
/// parenthesis.
fn flush_stack(output: &mut Vec<Operator>, stack: &mut Vec<Operator>) -> (r: bool)
    ensures
        match rpn_flush(old(output)@, old(stack)@) {
            Ok(o) => r && final(output)@ == o && final(stack)@.len() == 0,
            Err(_) => !r,
        },
    decreases old(stack)@.len(),
{
    match stack.pop() {
        None => true,
        Some(Operator::Parentesis(true)) => false,
        Some(ope) => {
            output.push(ope);
            flush_stack(output, stack)
        },
    }
}

/// Decides `is_connective`.
fn is_connective_exec(op: Operator) -> (r: bool)
    ensures
        r == is_connective(op),
{
    match op {
        Operator::Not | Operator::And | Operator::Or | Operator::Xor | Operator::Equal
            | Operator::Material => true,
        _ => false,
    }
}

/// Computes `priority`.
fn priority_exec(op: Operator) -> (r: u8)
    ensures
        r as int == priority(op),
{
    match op {
        Operator::Not => 5,
        Operator::And => 4,
        Operator::Xor => 3,
        Operator::Or => 2,
        Operator::Material => 1,
        _ => 0,
    }
}

/// Pops the pending connectives of higher or equal priority to the output.
fn pop_higher_prec(output: &mut Vec<Operator>, stack: &mut Vec<Operator>, op: Operator)
    ensures
        (final(output)@, final(stack)@) == rpn_pop_prec(old(output)@, old(stack)@, op),
    decreases old(stack)@.len(),
{
    let ghost s0 = stack@;
    match stack.pop() {
        None => {},
        Some(top) => {
            if is_connective_exec(top) && priority_exec(top) >= priority_exec(op) {
                output.push(top);
                pop_higher_prec(output, stack, op);
            } else {
                stack.push(top);
                proof {
                    assert(stack@ =~= s0);
                }
            }
        },
    }
}

fn unexpected_close_err() -> (s: String)
    ensures
        s@ == "unexpected closing delimiter: ')'"@,
{
    String::from_str("unexpected closing delimiter: ')'")
}

fn unclosed_err() -> (s: String)
    ensures
        s@ == "unclosed delimiter '('"@,
{
    String::from_str("unclosed delimiter '('")
}

fn unexpected_op_err(op: Operator) -> (s: String)
    ensures
        s@ == "unexpected operator "@ + spec_symbol(op),
{
    let mut s = String::from_str("unexpected operator ");
    let sym = op.symbol();
    s.append(sym.as_str());
    s
}

impl Operator {
    /// Converts an infix token sequence to reverse-Polish order, as
    /// `spec_rpn` describes, reporting the first malformation found.
    pub fn to_reverse_polish_notation(input: &Vec<Operator>) -> (r: Result<Vec<Operator>, String>)
        ensures
            r is Ok <==> spec_rpn(input@) is Ok,
            r matches Ok(v) ==> v@ == spec_rpn(input@)->Ok_0,
            r matches Err(e) ==> e@ == spec_rpn(input@)->Err_0,
    {
        let mut output: Vec<Operator> = Vec::new();
        let mut stack: Vec<Operator> = Vec::new();
        let mut i: usize = 0;
        proof {
            assert(input@.skip(0) =~= input@);
        }
        while i < input.len()
            invariant
                i <= input@.len(),
                rpn_steps(input@, Seq::empty(), Seq::empty()) == rpn_steps(
                    input@.skip(i as int),
                    output@,
                    stack@,
                ),
            decreases input@.len() - i,
        {
            let op = input[i];
            proof {
                assert(input@.skip(i as int)[0] == op);
                assert(input@.skip(i as int).drop_first() =~= input@.skip(i as int + 1));
            }
            match op {
                Operator::Var(_) => {
                    output.push(op);
                },
                Operator::Parentesis(false) => {
                    let ghost o0 = output@;
                    let ghost s0 = stack@;
                    let found = pop_until_open(&mut output, &mut stack);
                    if !found {
                        proof {
                            lemma_pop_close_err(o0, s0);
                        }
                        return Err(unexpected_close_err());
                    }
                },
                Operator::Not | Operator::Parentesis(true) => {
                    stack.push(op);
                },
                _ => {
                    if output.len() == 0 {
                        return Err(unexpected_op_err(op));
                    }
                    match op {
                        Operator::IfAndOnlyIf | Operator::Then => {
                            let ghost o0 = output@;
                            let ghost s0 = stack@;
                            let ok = flush_stack(&mut output, &mut stack);
                            if !ok {
                                proof {
                                    lemma_flush_err(o0, s0);
                                }
                                return Err(unclosed_err());
                            }
                            stack.push(op);
                            proof {
                                assert(stack@ =~= seq![op]);
                            }
                        },
                        _ => {
                            pop_higher_prec(&mut output, &mut stack, op);
                            stack.push(op);
                        },
                    }
                },
            }
            i = i + 1;
        }
        proof {
            assert(input@.skip(i as int) =~= Seq::<Operator>::empty());
        }
        let ghost o0 = output@;
        let ghost s0 = stack@;
        let ok = flush_stack(&mut output, &mut stack);
        if !ok {
            proof {
                lemma_flush_err(o0, s0);
            }
            return Err(unclosed_err());
        }
        Ok(output)
    }
}

/// A boolean expression tree.  Leaves are fact references (`Var`) or literals
/// (`B`); `Not` keeps its single child in `c2`; the binary connectives keep
/// their left child in `c1` and their right child in `c2`.
#[derive(Debug, PartialEq)]
pub struct BTree {
    pub c1: Option<Box<BTree>>,
    pub c2: Option<Box<BTree>>,
    pub node: Operator,
}

impl BTree {
    /// A formula tree is well formed when every node has the arity of its
    /// operator and only connectives, fact references and literals appear.
    pub open spec fn wf(self) -> bool
        decreases self,
    {
        match self.node {
            Operator::Var(_) | Operator::B(_) => self.c1 is None && self.c2 is None,
            Operator::Not => self.c1 is None && match self.c2 {
                Some(c) => c.wf(),
                None => false,
            },
            Operator::And | Operator::Or | Operator::Xor | Operator::Equal
                | Operator::Material => {
                &&& match self.c1 {
                    Some(c) => c.wf(),
                    None => false,
                }
                &&& match self.c2 {
                    Some(c) => c.wf(),
                    None => false,
                }
            },
            _ => false,
        }
    }

    /// A ground tree: well formed and with every leaf a boolean literal,
    /// so that it can be evaluated.
    pub open spec fn ground(self) -> bool
        decreases self,
    {
        match self.node {
            Operator::B(_) => self.c1 is None && self.c2 is None,
            Operator::Not => self.c1 is None && match self.c2 {
                Some(c) => c.ground(),
                None => false,
            },
            Operator::And | Operator::Or | Operator::Xor | Operator::Equal
                | Operator::Material => {
                &&& match self.c1 {
                    Some(c) => c.ground(),
                    None => false,
                }
                &&& match self.c2 {
                    Some(c) => c.ground(),
                    None => false,
                }
            },
            _ => false,
        }
    }

    /// The value of a ground tree: And/Or are the standard connectives, Xor is
    /// boolean inequality, Equal is boolean equality, Material implication
    /// `P >> Q` is `!(P && !Q)`, Not negates its child.
    pub open spec fn eval_ground(self) -> bool
        decreases self,
    {
        match self.node {
            Operator::B(b) => b,
            Operator::Not => match self.c2 {
                Some(c) => !c.eval_ground(),
                None => false,
            },
            Operator::And | Operator::Or | Operator::Xor | Operator::Equal
                | Operator::Material => match (self.c1, self.c2) {
                (Some(a), Some(b)) => {
                    let x = a.eval_ground();
                    let y = b.eval_ground();
                    match self.node {
                        Operator::And => x && y,
                        Operator::Or => x || y,
                        Operator::Xor => x != y,
                        Operator::Equal => x == y,
                        _ => !(x && !y),
                    }
                },
                _ => false,
            },
            _ => false,
        }
    }

    /// The value of a well-formed tree under an environment of fact values;
    /// a fact missing from the environment counts as false.
    pub open spec fn eval_env(self, env: Map<char, bool>) -> bool
        decreases self,
    {
        match self.node {
            Operator::B(b) => b,
            Operator::Var(c) => env.contains_key(c) && env[c],
            Operator::Not => match self.c2 {
                Some(c) => !c.eval_env(env),
                None => false,
            },
            Operator::And | Operator::Or | Operator::Xor | Operator::Equal
                | Operator::Material => match (self.c1, self.c2) {
                (Some(a), Some(b)) => {
                    let x = a.eval_env(env);
                    let y = b.eval_env(env);
                    match self.node {
                        Operator::And => x && y,
                        Operator::Or => x || y,
                        Operator::Xor => x != y,
                        Operator::Equal => x == y,
                        _ => !(x && !y),
                    }
                },
                _ => false,
            },
            _ => false,
        }
    }

    /// The postfix (reverse Polish) serialisation of a tree.
    pub open spec fn postfix(self) -> Seq<Operator>
        decreases self,
    {
        match self.node {
            Operator::Var(_) | Operator::B(_) => seq![self.node],
            Operator::Not => match self.c2 {
                Some(c) => c.postfix().push(Operator::Not),
                None => seq![self.node],
            },
            Operator::And | Operator::Or | Operator::Xor | Operator::Equal
                | Operator::Material => match (self.c1, self.c2) {
                (Some(a), Some(b)) => a.postfix() + b.postfix() + seq![self.node],
                _ => seq![self.node],
            },
            _ => seq![self.node],
        }
    }
}

/// Whether a token sequence ends with the postfix serialisation of some
/// well-formed tree (the condition under which tree building succeeds).
pub open spec fn buildable(s: Seq<Operator>) -> bool {
    exists|t: BTree, rest: Seq<Operator>| t.wf() && s == rest + t.postfix()
}

/// A well-formed tree serialises to at least one token, the last one being
/// its root operator, which is never a delimiter or a rule separator.
pub proof fn lemma_postfix_last(t: BTree)
    requires
        t.wf(),
    ensures
        t.postfix().len() >= 1,
        t.postfix().last() == t.node,
        !(t.node is Parentesis),
        !(t.node is Then),
        !(t.node is IfAndOnlyIf),
    decreases t,
{
    match t.node {
        Operator::Not => {
            match t.c2 {
                Some(c) => {
                    lemma_postfix_last(*c);
                },
                None => {},
            }
        },
        Operator::And | Operator::Or | Operator::Xor | Operator::Equal
            | Operator::Material => {
            match (t.c1, t.c2) {
                (Some(a), Some(b)) => {
                    lemma_postfix_last(*a);
                    lemma_postfix_last(*b);
                    assert(t.postfix().last() == t.node);
                },
                _ => {},
            }
        },
        _ => {},
    }
}

/// Postfix serialisations of well-formed trees decompose uniquely: if two
/// serialisations agree after arbitrary prefixes, the trees and the prefixes
/// are equal.
pub proof fn lemma_postfix_unique(t1: BTree, t2: BTree, r1: Seq<Operator>, r2: Seq<Operator>)
    requires
        t1.wf(),
        t2.wf(),
        r1 + t1.postfix() == r2 + t2.postfix(),
    ensures
        t1 == t2,
        r1 == r2,
    decreases t1,
{
    lemma_postfix_last(t1);
    lemma_postfix_last(t2);
    let s = r1 + t1.postfix();
    assert(s.last() == t1.node);
    assert(s.last() == t2.node);
    let s1 = s.drop_last();
    match t1.node {
        Operator::Var(_) | Operator::B(_) => {
            assert(s1 =~= r1);
            assert(s1 =~= r2);
            assert(t1.c1 == t2.c1 && t1.c2 == t2.c2);
        },
        Operator::Not => {
            let c1t = t1.c2->Some_0;
            let c2t = t2.c2->Some_0;
            assert(s1 =~= r1 + c1t.postfix());
            assert(s1 =~= r2 + c2t.postfix());
            lemma_postfix_unique(*c1t, *c2t, r1, r2);
        },
        _ => {
            let a1 = t1.c1->Some_0;
            let b1 = t1.c2->Some_0;
            let a2 = t2.c1->Some_0;
            let b2 = t2.c2->Some_0;
            assert(s1 =~= (r1 + a1.postfix()) + b1.postfix());
            assert(s1 =~= (r2 + a2.postfix()) + b2.postfix());
            lemma_postfix_unique(*b1, *b2, r1 + a1.postfix(), r2 + a2.postfix());
            lemma_postfix_unique(*a1, *a2, r1, r2);
        },
    }
}

/// The concatenated canonical text of a token sequence.
pub open spec fn text_of(ops: Seq<Operator>) -> Seq<char>
    decreases ops.len(),
{
    if ops.len() == 0 {
        Seq::empty()
    } else {
        text_of(ops.drop_last()) + spec_symbol(ops.last())
    }
}

/// Text rendering distributes over concatenation of token sequences.
pub proof fn lemma_text_of_append(a: Seq<Operator>, b: Seq<Operator>)
    ensures
        text_of(a + b) == text_of(a) + text_of(b),
    decreases b.len(),
{
    if b.len() == 0 {
        assert(a + b =~= a);
        assert(text_of(a) + text_of(b) =~= text_of(a));
    } else {
        assert((a + b).drop_last() =~= a + b.drop_last());
        assert((a + b).last() == b.last());
        lemma_text_of_append(a, b.drop_last());
        assert(text_of(a) + text_of(b.drop_last()) + spec_symbol(b.last()) =~= text_of(a)
            + text_of(b));
    }
}

/// Selects which nodes a traversal of a tree collects.
#[derive(Debug, Clone, Copy, PartialEq, Eq, Structural)]
pub enum NodeFilter {
    /// Fact references only.
    Vars,
    /// Every node that is neither a fact reference nor a conjunction
    /// (used to validate the shape of a consequent).
    NonConjunctive,
}

/// Whether a node is collected under a filter.
pub open spec fn matches_filter(op: Operator, filter: NodeFilter) -> bool {
    match filter {
        NodeFilter::Vars => op is Var,
        NodeFilter::NonConjunctive => !(op is Var) && !(op is And),
    }
}

/// Decides `matches_filter`.
pub fn matches_filter_exec(op: Operator, filter: NodeFilter) -> (r: bool)
    ensures
        r == matches_filter(op, filter),
{
    match filter {
        NodeFilter::Vars => matches!(op, Operator::Var(_)),
        NodeFilter::NonConjunctive => !(matches!(op, Operator::Var(_)) || matches!(
            op,
            Operator::And,
        )),
    }
}

impl BTree {
    /// The nodes of a pre-order traversal that a filter collects.
    pub open spec fn spec_find_nodes(self, filter: NodeFilter) -> Seq<Operator>
        decreases self,
    {
        (if matches_filter(self.node, filter) {
            seq![self.node]
        } else {
            Seq::empty()
        }) + (match self.c1 {
            Some(c) => c.spec_find_nodes(filter),
            None => Seq::empty(),
        }) + (match self.c2 {
            Some(c) => c.spec_find_nodes(filter),
            None => Seq::empty(),
        })
    }

    /// Every node that a traversal collects matches its filter.
    pub proof fn lemma_find_nodes_match(self, f: NodeFilter)
        ensures
            forall|k: int|
                0 <= k < self.spec_find_nodes(f).len() ==> matches_filter(
                    #[trigger] self.spec_find_nodes(f)[k],
                    f,
                ),
        decreases self,
    {
        let head: Seq<Operator> = if matches_filter(self.node, f) {
            seq![self.node]
        } else {
            Seq::empty()
        };
        let p1: Seq<Operator> = match self.c1 {
            Some(c) => c.spec_find_nodes(f),
            None => Seq::empty(),
        };
        let p2: Seq<Operator> = match self.c2 {
            Some(c) => c.spec_find_nodes(f),
            None => Seq::empty(),
        };
        match self.c1 {
            Some(c) => {
                c.lemma_find_nodes_match(f);
            },
            None => {},
        }
        match self.c2 {
            Some(c) => {
                c.lemma_find_nodes_match(f);
            },
            None => {},
        }
        assert forall|k: int| 0 <= k < self.spec_find_nodes(f).len() implies matches_filter(
            #[trigger] self.spec_find_nodes(f)[k],
            f,
        ) by {
            assert(self.spec_find_nodes(f) == head + p1 + p2);
            if k < head.len() {
                assert(self.spec_find_nodes(f)[k] == self.node);
            } else if k < head.len() + p1.len() {
                assert(self.spec_find_nodes(f)[k] == p1[k - head.len()]);
            } else {
                assert(self.spec_find_nodes(f)[k] == p2[k - head.len() - p1.len()]);
            }
        }
    }

    /// A childless node.
    pub fn new(node: Operator) -> (t: BTree)
        ensures
            t == (BTree { c1: None, c2: None, node }),
    {
        BTree { c1: None, c2: None, node }
    }

    /// Sets the left child.
    pub fn insert_a(&mut self, sub_tree: BTree)
        ensures
            final(self).node == old(self).node,
            final(self).c2 == old(self).c2,
            final(self).c1 matches Some(b) && *b == sub_tree,
    {
        self.c1 = Some(Box::new(sub_tree));
    }

    /// Sets the right child.
    pub fn insert_b(&mut self, sub_tree: BTree)
        ensures
            final(self).node == old(self).node,
            final(self).c1 == old(self).c1,
            final(self).c2 matches Some(b) && *b == sub_tree,
    {
        self.c2 = Some(Box::new(sub_tree));
    }

    /// Collects, in pre-order, every node that the filter matches.
    pub fn find_nodes(&self, filter: NodeFilter) -> (r: Vec<Operator>)
        ensures
            r@ == self.spec_find_nodes(filter),
        decreases *self,
    {
        let mut ret: Vec<Operator> = Vec::new();
        if matches_filter_exec(self.node, filter) {
            ret.push(self.node);
        }
        match &self.c1 {
            Some(c) => {
                let mut v = c.find_nodes(filter);
                ret.append(&mut v);
            },
            None => {},
        }
        match &self.c2 {
            Some(c) => {
                let mut v = c.find_nodes(filter);
                ret.append(&mut v);
            },
            None => {},
        }
        proof {
            assert(ret@ =~= self.spec_find_nodes(filter));
        }
        ret
    }

    /// Renders the tree as the text of its postfix serialisation.
    pub fn to_string(&self) -> (s: String)
        ensures
            s@ == text_of(self.postfix()),
        decreases *self,
    {
        match (&self.node, &self.c1, &self.c2) {
            (Operator::Not, _, Some(c2)) => {
                let mut s = c2.to_string();
                let sym = self.node.symbol();
                s.append(sym.as_str());
                proof {
                    assert(self.postfix().drop_last() =~= c2.postfix());
                }
                s
            },
            (
                Operator::And | Operator::Or | Operator::Xor | Operator::Equal
                    | Operator::Material,
                Some(c1),
                Some(c2),
            ) => {
                let mut s = c1.to_string();
                let t2 = c2.to_string();
                s.append(t2.as_str());
                let sym = self.node.symbol();
                s.append(sym.as_str());
                proof {
                    lemma_text_of_append(c1.postfix(), c2.postfix());
                    assert((c1.postfix() + c2.postfix() + seq![self.node]).drop_last() =~= c1.postfix() + c2.postfix());
                }
                s
            },
            _ => {
                let s = self.node.symbol();
                proof {
                    let pf = seq![self.node];
                    assert(pf.drop_last() =~= Seq::<Operator>::empty());
                    assert(pf.last() == self.node);
                    assert(text_of(pf) == text_of(Seq::<Operator>::empty()) + spec_symbol(
                        self.node,
                    ));
                    assert(text_of(pf) =~= spec_symbol(self.node));
                }
                s
            },
        }
    }
}

/// Clones a tree; the copy is equal to the original.
pub fn clone_tree(t: &BTree) -> (r: BTree)
    ensures
        r == *t,
    decreases *t,
{
    let c1 = match &t.c1 {
        Some(b) => Some(Box::new(clone_tree(&**b))),
        None => None,
    };
    let c2 = match &t.c2 {
        Some(b) => Some(Box::new(clone_tree(&**b))),
        None => None,
    };
    BTree { c1, c2, node: t.node }
}

impl Clone for BTree {
    /// The copy is equal to the original.
    fn clone(&self) -> (r: Self)
        ensures
            r == *self,
    {
        clone_tree(self)
    }
}

/// The error for a token sequence that does not end in a complete formula.
fn parse_err() -> (s: String)
    ensures
        s@ == "Error while parsing formula"@,
{
    String::from_str("Error while parsing formula")
}

impl BTree {
    /// Builds a tree bottom-up from the tail of a postfix token sequence,
    /// consuming exactly the tokens of the tree that is returned.  Fails
    /// exactly when no well-formed tree ends the sequence.
    pub fn from_vec(formula: &mut Vec<Operator>) -> (r: Result<BTree, String>)
        ensures
            final(formula)@.len() <= old(formula)@.len(),
            r is Ok <==> buildable(old(formula)@),
            r matches Ok(t) ==> t.wf() && old(formula)@ == final(formula)@ + t.postfix(),
            r matches Err(e) ==> e@ == "Error while parsing formula"@,
        decreases old(formula)@.len(),
    {
        let ghost s = formula@;
        match formula.pop() {
            None => {
                proof {
                    if buildable(s) {
                        let (t, rest): (BTree, Seq<Operator>) = choose|t: BTree, rest: Seq<
                            Operator,
                        >| t.wf() && s == rest + t.postfix();
                        lemma_postfix_last(t);
                    }
                }
                Err(parse_err())
            },
            Some(last_op) => {
                proof {
                    assert(s == formula@ + seq![last_op]) by {
                        assert(s =~= s.drop_last() + seq![s.last()]);
                    }
                }
                match last_op {
                    Operator::B(_) | Operator::Var(_) => {
                        let t = BTree { c1: None, c2: None, node: last_op };
                        proof {
                            assert(t.postfix() =~= seq![last_op]);
                            assert(s == formula@ + t.postfix());
                            assert(buildable(s));
                        }
                        Ok(t)
                    },
                    Operator::Parentesis(_) | Operator::IfAndOnlyIf | Operator::Then => {
                        proof {
                            if buildable(s) {
                                let (t, rest): (BTree, Seq<Operator>) = choose|t: BTree, rest: Seq<
                                    Operator,
                                >| t.wf() && s == rest + t.postfix();
                                lemma_postfix_last(t);
                                assert(s.last() == t.node);
                            }
                        }
                        Err(parse_err())
                    },
                    Operator::Not => {
                        let ghost s1 = formula@;
                        match BTree::from_vec(formula) {
                            Ok(child) => {
                                let t = BTree {
                                    c1: None,
                                    c2: Some(Box::new(child)),
                                    node: Operator::Not,
                                };
                                proof {
                                    assert(t.postfix() == child.postfix().push(Operator::Not));
                                    assert(s =~= formula@ + t.postfix());
                                    assert(buildable(s));
                                }
                                Ok(t)
                            },
                            Err(e) => {
                                proof {
                                    if buildable(s) {
                                        let (t, rest): (BTree, Seq<Operator>) = choose|
                                            t: BTree,
                                            rest: Seq<Operator>,
                                        | t.wf() && s == rest + t.postfix();
                                        lemma_postfix_last(t);
                                        assert(s.last() == t.node);
                                        let c = t.c2->Some_0;
                                        assert(s1 =~= rest + c.postfix());
                                        assert(buildable(s1));
                                    }
                                }
                                Err(e)
                            },
                        }
                    },
                    _ => {
                        // And, Or, Xor, Equal or Material: the right child was
                        // serialised last, so it is built first.
                        let ghost s1 = formula@;
                        match BTree::from_vec(formula) {
                            Ok(right) => {
                                let ghost s2 = formula@;
                                match BTree::from_vec(formula) {
                                    Ok(left) => {
                                        let t = BTree {
                                            c1: Some(Box::new(left)),
                                            c2: Some(Box::new(right)),
                                            node: last_op,
                                        };
                                        proof {
                                            assert(t.postfix() == left.postfix() + right.postfix()
                                                + seq![last_op]);
                                            assert(s =~= formula@ + t.postfix());
                                            assert(buildable(s));
                                        }
                                        Ok(t)
                                    },
                                    Err(e) => {
                                        proof {
                                            if buildable(s) {
                                                let (t, rest): (BTree, Seq<Operator>) = choose|
                                                    t: BTree,
                                                    rest: Seq<Operator>,
                                                | t.wf() && s == rest + t.postfix();
                                                lemma_postfix_last(t);
                                                assert(s.last() == t.node);
                                                let a = t.c1->Some_0;
                                                let b = t.c2->Some_0;
                                                assert(s1 =~= (rest + a.postfix()) + b.postfix());
                                                lemma_postfix_unique(
                                                    right,
                                                    *b,
                                                    s2,
                                                    rest + a.postfix(),
                                                );
                                                assert(s2 =~= rest + a.postfix());
                                                assert(buildable(s2));
                                            }
                                        }
                                        Err(e)
                                    },
                                }
                            },
                            Err(e) => {
                                proof {
                                    if buildable(s) {
                                        let (t, rest): (BTree, Seq<Operator>) = choose|
                                            t: BTree,
                                            rest: Seq<Operator>,
                                        | t.wf() && s == rest + t.postfix();
                                        lemma_postfix_last(t);
                                        assert(s.last() == t.node);
                                        let a = t.c1->Some_0;
                                        let b = t.c2->Some_0;
                                        assert(s1 =~= (rest + a.postfix()) + b.postfix());
                                        assert(buildable(s1));
                                    }
                                }
                                Err(e)
                            },
                        }
                    },
                }
            },
        }
    }
}

/// The evaluation error for a tree that is not ground and well formed.
fn eval_err() -> (s: String)
    ensures
        s@ == "Error while calculating formula"@,
{
    String::from_str("Error while calculating formula")
}

/// Evaluates a ground tree; a tree that still holds a fact reference, or is
/// not well formed, is an internal-consistency error, not a value.
pub fn calc_formula(tree: &BTree) -> (r: Result<bool, String>)
    ensures
        r is Ok <==> tree.ground(),
        r matches Ok(b) ==> b == tree.eval_ground(),
        r matches Err(e) ==> e@ == "Error while calculating formula"@,
    decreases *tree,
{
    match (&tree.node, &tree.c1, &tree.c2) {
        (Operator::B(b), None, None) => Ok(*b),
        (Operator::Not, None, Some(c2)) => {
            match calc_formula(c2) {
                Ok(v) => Ok(!v),
                Err(e) => Err(e),
            }
        },
        (
            Operator::And | Operator::Or | Operator::Xor | Operator::Equal
                | Operator::Material,
            Some(c1),
            Some(c2),
        ) => {
            let x = match calc_formula(c1) {
                Ok(v) => v,
                Err(e) => {
                    return Err(e);
                },
            };
            let y = match calc_formula(c2) {
                Ok(v) => v,
                Err(e) => {
                    return Err(e);
                },
            };
            match tree.node {
                Operator::And => Ok(x && y),
                Operator::Or => Ok(x || y),
                Operator::Xor => Ok(x != y),
                Operator::Equal => Ok(x == y),
                _ => Ok(!(x && !y)),
            }
        },
        _ => Err(eval_err()),
    }
}

impl BTree {
    /// Evaluates the tree, or yields false when it is not ground.
    pub fn eval(&self) -> (r: bool)
        ensures
            r == if self.ground() {
                self.eval_ground()
            } else {
                false
            },
    {
        match calc_formula(self) {
            Ok(res) => res,
            Err(_) => false,
        }
    }
}

} // verus!
