use vstd::prelude::*;
use vstd::string::*;
use crate::utils::{str_eq, char_to_string};
use crate::models::{Operator, spec_symbol, BTree, NodeFilter, rpn_pop_close, rpn_flush, rpn_steps, spec_rpn, rpn_pop_prec};
use crate::kb::{Assignment, pairs_map, Rule, lemma_enrich_eval, Variables, Variable, has_rule_text};

verus! {

/// ASCII whitespace, as line trimming removes it.
pub open spec fn is_space(c: char) -> bool {
    c == ' ' || c == '\t' || c == '\r' || c == '\n'
}

/// Decides `is_space`.
pub fn is_space_exec(c: char) -> (r: bool)
    ensures
        r == is_space(c),
{
    c == ' ' || c == '\t' || c == '\r' || c == '\n'
}

/// An ASCII letter, the only shape of a fact name.
pub open spec fn is_alpha(c: char) -> bool {
    ('a' <= c && c <= 'z') || ('A' <= c && c <= 'Z')
}

/// Decides `is_alpha`.
pub fn is_alpha_exec(c: char) -> (r: bool)
    ensures
        r == is_alpha(c),
{
    ('a' <= c && c <= 'z') || ('A' <= c && c <= 'Z')
}

/// The characters left after removing leading whitespace.
pub open spec fn trim_start(s: Seq<char>) -> Seq<char>
    decreases s.len(),
{
    if s.len() > 0 && is_space(s[0]) {
        trim_start(s.drop_first())
    } else {
        s
    }
}

/// The characters left after removing trailing whitespace.
pub open spec fn trim_end(s: Seq<char>) -> Seq<char>
    decreases s.len(),
{
    if s.len() > 0 && is_space(s.last()) {
        trim_end(s.drop_last())
    } else {
        s
    }
}

/// The characters left after removing whitespace at both ends.
pub open spec fn spec_trim(s: Seq<char>) -> Seq<char> {
    trim_end(trim_start(s))
}

proof fn lemma_trim_start_at(s: Seq<char>, a: int)
    requires
        0 <= a <= s.len(),
        forall|j: int| 0 <= j < a ==> is_space(s[j]),
        a == s.len() || !is_space(s[a]),
    ensures
        trim_start(s) == s.subrange(a, s.len() as int),
    decreases a,
{
    if a == 0 {
        assert(s.subrange(0, s.len() as int) =~= s);
    } else {
        assert(is_space(s[0]));
        let t = s.drop_first();
        assert(forall|j: int| 0 <= j < a - 1 ==> is_space(#[trigger] t[j]));
        lemma_trim_start_at(t, a - 1);
        assert(t.subrange(a - 1, t.len() as int) =~= s.subrange(a, s.len() as int));
    }
}

proof fn lemma_trim_end_at(s: Seq<char>, b: int)
    requires
        0 <= b <= s.len(),
        forall|j: int| b <= j < s.len() ==> is_space(s[j]),
        b == 0 || !is_space(s[b - 1]),
    ensures
        trim_end(s) == s.subrange(0, b),
    decreases s.len(),
{
    if b == s.len() {
        assert(s.subrange(0, b) =~= s);
        if s.len() > 0 {
            assert(!is_space(s.last()));
        }
    } else {
        assert(is_space(s.last()));
        let t = s.drop_last();
        lemma_trim_end_at(t, b);
        assert(t.subrange(0, b) =~= s.subrange(0, b));
    }
}

/// Removes whitespace at both ends of a string.
pub fn trim_exec(s: &str) -> (r: String)
    ensures
        r@ == spec_trim(s@),
{
    let n = s.unicode_len();
    let mut a: usize = 0;
    while a < n && is_space_exec(s.get_char(a))
        invariant
            a <= n,
            n == s@.len(),
            forall|j: int| 0 <= j < a ==> is_space(s@[j]),
        decreases n - a,
    {
        a = a + 1;
    }
    let mut b: usize = n;
    while b > a && is_space_exec(s.get_char(b - 1))
        invariant
            a <= b <= n,
            n == s@.len(),
            forall|j: int| b <= j < n ==> is_space(s@[j]),
        decreases b,
    {
        b = b - 1;
    }
    proof {
        lemma_trim_start_at(s@, a as int);
        let t = s@.subrange(a as int, n as int);
        assert(forall|j: int| b - a <= j < t.len() ==> is_space(#[trigger] t[j]));
        if b > a {
            assert(!is_space(t[b - a - 1]));
        }
        lemma_trim_end_at(t, b - a);
        assert(t.subrange(0, b - a) =~= s@.subrange(a as int, b as int));
    }
    let sub = s.substring_char(a, b);
    String::from_str(sub)
}

/// The part of a line before its first comment mark.
pub open spec fn before_hash(s: Seq<char>) -> Seq<char>
    decreases s.len(),
{
    if s.len() == 0 {
        Seq::empty()
    } else if s[0] == '#' {
        Seq::empty()
    } else {
        seq![s[0]] + before_hash(s.drop_first())
    }
}

proof fn lemma_before_hash_at(s: Seq<char>, h: int)
    requires
        0 <= h <= s.len(),
        forall|j: int| 0 <= j < h ==> s[j] != '#',
        h == s.len() || s[h] == '#',
    ensures
        before_hash(s) == s.subrange(0, h),
    decreases h,
{
    if h == 0 {
        assert(s.subrange(0, 0) =~= Seq::<char>::empty());
    } else {
        let t = s.drop_first();
        assert(forall|j: int| 0 <= j < h - 1 ==> #[trigger] t[j] != '#');
        lemma_before_hash_at(t, h - 1);
        assert(seq![s[0]] + t.subrange(0, h - 1) =~= s.subrange(0, h));
    }
}

/// Strips the comment from a source line and trims it; a line that is
/// nothing but comment or emptiness yields `None`.
pub fn clean_line(line: &str) -> (r: Option<String>)
    ensures
        ({
            let bh = before_hash(line@);
            if bh.len() > 0 {
                r matches Some(s) && s@ == spec_trim(bh)
            } else {
                r is None
            }
        }),
{
    let n = line.unicode_len();
    let mut h: usize = 0;
    while h < n && line.get_char(h) != '#'
        invariant
            h <= n,
            n == line@.len(),
            forall|j: int| 0 <= j < h ==> line@[j] != '#',
        decreases n - h,
    {
        h = h + 1;
    }
    proof {
        lemma_before_hash_at(line@, h as int);
    }
    if h == 0 {
        return None;
    }
    let sub = line.substring_char(0, h);
    Some(trim_exec(sub))
}

/// One character's effect on the chunk accumulator of the lexer: spaces end
/// a chunk, the multi-character operator marks `=>`, `<=>` and `>>` are
/// assembled, single-character operators stand alone, and quotes toggle a
/// scope in which text is taken verbatim.
pub open spec fn chunk_step(acc: Seq<Seq<char>>, scoped: bool, c: char) -> (Seq<Seq<char>>, bool) {
    let last = acc.last();
    let head = acc.drop_last();
    if !scoped && c == ' ' {
        (acc.push(Seq::empty()), false)
    } else if !scoped && c == '>' {
        if last == "="@ || last == ">"@ || last == "<="@ {
            (head.push(last.push('>')).push(Seq::empty()), false)
        } else {
            (acc.push(">"@), false)
        }
    } else if !scoped && c == '=' {
        if last == "<"@ {
            (head.push(last.push('=')), false)
        } else {
            (acc.push("="@), false)
        }
    } else if !scoped && (c == '!' || c == '+' || c == '^' || c == '&' || c == '(' || c == ')' || c
        == '|') {
        (acc.push(seq![c]).push(Seq::empty()), false)
    } else if c == '"' {
        (acc.push(Seq::empty()), !scoped)
    } else {
        (head.push(last.push(c)), scoped)
    }
}

/// The lexer's fold over a line.
pub open spec fn chunks_fold(s: Seq<char>, acc: Seq<Seq<char>>, scoped: bool) -> (
    Seq<Seq<char>>,
    bool,
)
    decreases s.len(),
{
    if s.len() == 0 {
        (acc, scoped)
    } else {
        let st = chunk_step(acc, scoped, s[0]);
        chunks_fold(s.drop_first(), st.0, st.1)
    }
}

proof fn lemma_chunks_fold_snoc(s: Seq<char>, acc: Seq<Seq<char>>, scoped: bool, c: char)
    ensures
        chunks_fold(s.push(c), acc, scoped) == ({
            let m = chunks_fold(s, acc, scoped);
            chunk_step(m.0, m.1, c)
        }),
    decreases s.len(),
{
    if s.len() == 0 {
        assert(s.push(c)[0] == c);
        assert(s.push(c).drop_first() =~= Seq::<char>::empty());
        let st = chunk_step(acc, scoped, c);
        assert(chunks_fold(s.push(c), acc, scoped) == chunks_fold(
            s.push(c).drop_first(),
            st.0,
            st.1,
        ));
        assert(chunks_fold(s.push(c).drop_first(), st.0, st.1) == st);
        assert(chunks_fold(s, acc, scoped) == (acc, scoped));
    } else {
        assert(s.push(c)[0] == s[0]);
        assert(s.push(c).drop_first() =~= s.drop_first().push(c));
        let st = chunk_step(acc, scoped, s[0]);
        lemma_chunks_fold_snoc(s.drop_first(), st.0, st.1, c);
    }
}

/// Trims every chunk and keeps the non-empty ones.
pub open spec fn trim_filter(chunks: Seq<Seq<char>>) -> Seq<Seq<char>>
    decreases chunks.len(),
{
    if chunks.len() == 0 {
        Seq::empty()
    } else {
        trim_filter(chunks.drop_last()) + (if spec_trim(chunks.last()).len() > 0 {
            seq![spec_trim(chunks.last())]
        } else {
            Seq::empty()
        })
    }
}

/// The chunks of a rule line, or the unclosed-quote error.
pub open spec fn spec_line_to_chunk(line: Seq<char>) -> Result<Seq<Seq<char>>, Seq<char>> {
    let m = chunks_fold(line, seq![Seq::<char>::empty()], false);
    if m.1 {
        Err("unclosed quote in line: "@ + line)
    } else {
        Ok(trim_filter(m.0))
    }
}

/// The texts of a chunk list.
pub open spec fn strs_view(v: Seq<String>) -> Seq<Seq<char>> {
    v.map_values(|s: String| s@)
}

/// Splits a line into chunks as `spec_line_to_chunk` describes.
pub fn line_to_chunk(line: &str) -> (r: Result<Vec<String>, String>)
    ensures
        r is Ok <==> spec_line_to_chunk(line@) is Ok,
        r matches Ok(v) ==> strs_view(v@) == spec_line_to_chunk(line@)->Ok_0,
        r matches Err(e) ==> e@ == spec_line_to_chunk(line@)->Err_0,
{
    let n = line.unicode_len();
    let mut chunks: Vec<String> = Vec::new();
    chunks.push(String::new());
    let mut scoped = false;
    let mut i: usize = 0;
    proof {
        assert(strs_view(chunks@) =~= seq![Seq::<char>::empty()]);
        assert(line@.take(0) =~= Seq::<char>::empty());
    }
    while i < n
        invariant
            i <= n,
            n == line@.len(),
            chunks@.len() >= 1,
            (strs_view(chunks@), scoped) == chunks_fold(
                line@.take(i as int),
                seq![Seq::<char>::empty()],
                false,
            ),
        decreases n - i,
    {
        let c = line.get_char(i);
        let ghost acc0 = strs_view(chunks@);
        let ghost sc0 = scoped;
        proof {
            assert(line@.take(i as int + 1) =~= line@.take(i as int).push(line@[i as int]));
            lemma_chunks_fold_snoc(line@.take(i as int), seq![Seq::<char>::empty()], false, c);
        }
        if !scoped && c == ' ' {
            chunks.push(String::new());
            proof {
                assert(strs_view(chunks@) =~= acc0.push(Seq::empty()));
            }
        } else if !scoped && c == '>' {
            let mut last = match chunks.pop() {
                Some(s) => s,
                None => {
                    proof {
                        assert(false);
                    }
                    String::new()
                },
            };
            if str_eq(last.as_str(), "=") || str_eq(last.as_str(), ">") || str_eq(
                last.as_str(),
                "<=",
            ) {
                last.push('>');
                chunks.push(last);
                chunks.push(String::new());
                proof {
                    assert(strs_view(chunks@) =~= acc0.drop_last().push(acc0.last().push('>')).push(
                        Seq::empty(),
                    ));
                }
            } else {
                chunks.push(last);
                let mut ns = String::new();
                ns.push('>');
                chunks.push(ns);
                proof {
                    assert(ns@ =~= ">"@) by {
                        reveal_strlit(">");
                    }
                    assert(strs_view(chunks@) =~= acc0.push(">"@));
                }
            }
        } else if !scoped && c == '=' {
            let mut last = match chunks.pop() {
                Some(s) => s,
                None => {
                    proof {
                        assert(false);
                    }
                    String::new()
                },
            };
            if str_eq(last.as_str(), "<") {
                last.push('=');
                chunks.push(last);
                proof {
                    assert(strs_view(chunks@) =~= acc0.drop_last().push(acc0.last().push('=')));
                }
            } else {
                chunks.push(last);
                let mut ns = String::new();
                ns.push('=');
                chunks.push(ns);
                proof {
                    assert(ns@ =~= "="@) by {
                        reveal_strlit("=");
                    }
                    assert(strs_view(chunks@) =~= acc0.push("="@));
                }
            }
        } else if !scoped && (c == '!' || c == '+' || c == '^' || c == '&' || c == '(' || c == ')'
            || c == '|') {
            chunks.push(char_to_string(c));
            chunks.push(String::new());
            proof {
                assert(strs_view(chunks@) =~= acc0.push(seq![c]).push(Seq::empty()));
            }
        } else if c == '"' {
            scoped = !scoped;
            chunks.push(String::new());
            proof {
                assert(strs_view(chunks@) =~= acc0.push(Seq::empty()));
            }
        } else {
            let mut last = match chunks.pop() {
                Some(s) => s,
                None => {
                    proof {
                        assert(false);
                    }
                    String::new()
                },
            };
            last.push(c);
            chunks.push(last);
            proof {
                assert(strs_view(chunks@) =~= acc0.drop_last().push(acc0.last().push(c)));
            }
        }
        i = i + 1;
    }
    proof {
        assert(line@.take(n as int) =~= line@);
    }
    if scoped {
        let mut e = String::from_str("unclosed quote in line: ");
        e.append(line);
        return Err(e);
    }
    let mut out: Vec<String> = Vec::new();
    let mut k: usize = 0;
    proof {
        assert(chunks@.take(0) =~= Seq::<String>::empty());
        assert(strs_view(chunks@).take(0) =~= Seq::<Seq<char>>::empty());
    }
    while k < chunks.len()
        invariant
            k <= chunks@.len(),
            strs_view(out@) == trim_filter(strs_view(chunks@).take(k as int)),
        decreases chunks@.len() - k,
    {
        let ghost cv = strs_view(chunks@);
        proof {
            assert(cv.take(k as int + 1).drop_last() =~= cv.take(k as int));
            assert(cv.take(k as int + 1).last() == cv[k as int]);
        }
        let t = trim_exec(chunks[k].as_str());
        if t.unicode_len() > 0 {
            out.push(t);
            proof {
                assert(strs_view(out@) =~= trim_filter(cv.take(k as int)) + seq![
                    spec_trim(cv[k as int]),
                ]);
            }
        } else {
            proof {
                assert(strs_view(out@) =~= trim_filter(cv.take(k as int + 1)));
            }
        }
        k = k + 1;
    }
    proof {
        assert(strs_view(chunks@).take(chunks@.len() as int) =~= strs_view(chunks@));
    }
    Ok(out)
}

/// Whether a token may directly follow its predecessor on one side of a
/// rule: operands and open parentheses follow operators or stand first,
/// binary connectives follow operands or close parentheses, negation follows
/// operators or stands first, and a close parenthesis follows an operand or
/// another close parenthesis.
pub open spec fn adjacency_ok(op: Operator, last: Option<Operator>) -> bool {
    match op {
        Operator::Var(_) | Operator::B(_) | Operator::Parentesis(true) => match last {
            None => true,
            Some(Operator::And) | Some(Operator::Or) | Some(Operator::Xor) | Some(Operator::Equal)
                | Some(Operator::Material) | Some(Operator::Not)
                | Some(Operator::Parentesis(true)) => true,
            _ => false,
        },
        Operator::And | Operator::Or | Operator::Xor | Operator::Equal | Operator::Material => match last {
            Some(Operator::Var(_)) | Some(Operator::B(_)) | Some(Operator::Parentesis(false)) => true,
            _ => false,
        },
        Operator::Not => match last {
            None => true,
            Some(Operator::And) | Some(Operator::Or) | Some(Operator::Xor) | Some(Operator::Equal)
                | Some(Operator::Material) | Some(Operator::Not)
                | Some(Operator::Parentesis(true)) => true,
            _ => false,
        },
        Operator::Parentesis(false) => match last {
            Some(Operator::Var(_)) | Some(Operator::B(_)) | Some(Operator::Parentesis(false)) => true,
            _ => false,
        },
        _ => false,
    }
}

/// Decides `adjacency_ok`.
pub fn adjacency_ok_exec(op: Operator, last: Option<Operator>) -> (r: bool)
    ensures
        r == adjacency_ok(op, last),
{
    match op {
        Operator::Var(_) | Operator::B(_) | Operator::Parentesis(true) => match last {
            None => true,
            Some(Operator::And) | Some(Operator::Or) | Some(Operator::Xor) | Some(Operator::Equal)
                | Some(Operator::Material) | Some(Operator::Not)
                | Some(Operator::Parentesis(true)) => true,
            _ => false,
        },
        Operator::And | Operator::Or | Operator::Xor | Operator::Equal | Operator::Material => match last {
            Some(Operator::Var(_)) | Some(Operator::B(_)) | Some(Operator::Parentesis(false)) => true,
            _ => false,
        },
        Operator::Not => match last {
            None => true,
            Some(Operator::And) | Some(Operator::Or) | Some(Operator::Xor) | Some(Operator::Equal)
                | Some(Operator::Material) | Some(Operator::Not)
                | Some(Operator::Parentesis(true)) => true,
            _ => false,
        },
        Operator::Parentesis(false) => match last {
            Some(Operator::Var(_)) | Some(Operator::B(_)) | Some(Operator::Parentesis(false)) => true,
            _ => false,
        },
        _ => false,
    }
}

/// The message reported for a token that may not follow its predecessor.
pub open spec fn adjacency_err_msg(op: Operator, last: Option<Operator>) -> Seq<char> {
    match last {
        None => "Unexpected operator "@ + spec_symbol(op),
        Some(l) => "Unexpected operator "@ + spec_symbol(op) + " following "@ + spec_symbol(l),
    }
}

/// Checks one side's token adjacency, reporting the first offending token.
pub open spec fn side_adjacency(part: Seq<Operator>, last: Option<Operator>) -> Result<
    (),
    Seq<char>,
>
    decreases part.len(),
{
    if part.len() == 0 {
        Ok(())
    } else {
        let op = part[0];
        if adjacency_ok(op, last) {
            side_adjacency(part.drop_first(), Some(op))
        } else {
            Err(adjacency_err_msg(op, last))
        }
    }
}

/// The token sequences of a list of sides.
pub open spec fn sides_view(v: Seq<Vec<Operator>>) -> Seq<Seq<Operator>> {
    v.map_values(|s: Vec<Operator>| s@)
}

/// Checks every side's token adjacency.
pub open spec fn spec_check_splited(splited: Seq<Seq<Operator>>) -> Result<(), Seq<char>>
    decreases splited.len(),
{
    if splited.len() == 0 {
        Ok(())
    } else {
        match side_adjacency(splited[0], None::<Operator>) {
            Ok(u) => spec_check_splited(splited.drop_first()),
            Err(e) => Err(e),
        }
    }
}

fn adjacency_err_exec(op: Operator, last: Option<Operator>) -> (s: String)
    ensures
        s@ == adjacency_err_msg(op, last),
{
    let mut s = String::from_str("Unexpected operator ");
    let sym = op.symbol();
    s.append(sym.as_str());
    match last {
        Some(l) => {
            s.append(" following ");
            let sym2 = l.symbol();
            s.append(sym2.as_str());
        },
        None => {},
    }
    s
}

/// Validates token adjacency on every side of a rule, as
/// `spec_check_splited` describes.
#[verifier::loop_isolation(false)]
pub fn check_splited(splited: &Vec<Vec<Operator>>) -> (r: Result<(), String>)
    ensures
        r is Ok <==> spec_check_splited(sides_view(splited@)) is Ok,
        r matches Err(e) ==> e@ == spec_check_splited(sides_view(splited@))->Err_0,
{
    let ghost full = sides_view(splited@);
    let mut p: usize = 0;
    proof {
        assert(full.skip(0) =~= full);
    }
    while p < splited.len()
        invariant
            p <= splited@.len(),
            spec_check_splited(full) == spec_check_splited(full.skip(p as int)),
        decreases splited@.len() - p,
    {
        let part = &splited[p];
        let mut last: Option<Operator> = None;
        let mut q: usize = 0;
        proof {
            assert(part@.skip(0) =~= part@);
            assert(full.skip(p as int)[0] == part@);
            assert(full.skip(p as int).drop_first() =~= full.skip(p as int + 1));
        }
        while q < part.len()
            invariant
                q <= part@.len(),
                side_adjacency(part@, None::<Operator>) == side_adjacency(part@.skip(q as int), last),
            decreases part@.len() - q,
        {
            let op = part[q];
            proof {
                assert(part@.skip(q as int)[0] == op);
                assert(part@.skip(q as int).drop_first() =~= part@.skip(q as int + 1));
            }
            if !adjacency_ok_exec(op, last) {
                return Err(adjacency_err_exec(op, last));
            }
            last = Some(op);
            q = q + 1;
        }
        proof {
            assert(part@.skip(part@.len() as int) =~= Seq::<Operator>::empty());
        }
        p = p + 1;
    }
    proof {
        assert(full.skip(splited@.len() as int) =~= Seq::<Seq<Operator>>::empty());
    }
    Ok(())
}

/// The display text of one side: each token's text, each preceded by one
/// space.
pub open spec fn side_text(v: Seq<Operator>) -> Seq<char>
    decreases v.len(),
{
    if v.len() == 0 {
        Seq::empty()
    } else {
        side_text(v.drop_last()) + " "@ + spec_symbol(v.last())
    }
}

/// The display text of a rule from its two sides; `reverse` swaps them (for
/// the converse rule of an if-and-only-if).
pub open spec fn spec_rule_text(a: Seq<Operator>, b: Seq<Operator>, reverse: bool) -> Seq<char> {
    if reverse {
        side_text(b) + " =>"@ + side_text(a)
    } else {
        side_text(a) + " =>"@ + side_text(b)
    }
}

fn side_to_string(v: &Vec<Operator>) -> (s: String)
    ensures
        s@ == side_text(v@),
{
    let mut s = String::new();
    let mut i: usize = 0;
    while i < v.len()
        invariant
            i <= v@.len(),
            s@ == side_text(v@.take(i as int)),
        decreases v@.len() - i,
    {
        proof {
            assert(v@.take(i as int + 1).drop_last() =~= v@.take(i as int));
            assert(v@.take(i as int + 1).last() == v@[i as int]);
        }
        s.append(" ");
        let sym = v[i].symbol();
        s.append(sym.as_str());
        i = i + 1;
    }
    proof {
        assert(v@.take(v@.len() as int) =~= v@);
    }
    s
}

/// Renders a rule's display text from its antecedent and consequent token
/// sequences.
pub fn aritmetic_to_string(aritmetic: &Vec<Vec<Operator>>, reverse: bool) -> (r: String)
    requires
        aritmetic@.len() == 2,
    ensures
        r@ == spec_rule_text(aritmetic@[0]@, aritmetic@[1]@, reverse),
{
    let first = side_to_string(&aritmetic[0]);
    let second = side_to_string(&aritmetic[1]);
    if reverse {
        let mut s = second;
        s.append(" =>");
        s.append(first.as_str());
        s
    } else {
        let mut s = first;
        s.append(" =>");
        s.append(second.as_str());
        s
    }
}

} // verus!

verus! {

/// The distinct fact names among a token list, in first-occurrence order.
pub open spec fn dedup_vars(ops: Seq<Operator>) -> Seq<char>
    decreases ops.len(),
{
    if ops.len() == 0 {
        Seq::empty()
    } else {
        let rest = dedup_vars(ops.drop_last());
        match ops.last() {
            Operator::Var(c) => if rest.contains(c) {
                rest
            } else {
                rest.push(c)
            },
            _ => rest,
        }
    }
}

fn contains_char(v: &Vec<char>, c: char) -> (r: bool)
    ensures
        r == v@.contains(c),
{
    let mut i: usize = 0;
    while i < v.len()
        invariant
            i <= v@.len(),
            forall|j: int| 0 <= j < i ==> v@[j] != c,
        decreases v@.len() - i,
    {
        if v[i] == c {
            return true;
        }
        i = i + 1;
    }
    false
}

/// Collects the distinct fact names of a token list.
#[verifier::loop_isolation(false)]
pub fn dedup_vars_exec(ops: &Vec<Operator>) -> (r: Vec<char>)
    ensures
        r@ == dedup_vars(ops@),
{
    let mut r: Vec<char> = Vec::new();
    let mut i: usize = 0;
    proof {
        assert(ops@.take(0) =~= Seq::<Operator>::empty());
    }
    while i < ops.len()
        invariant
            i <= ops@.len(),
            r@ == dedup_vars(ops@.take(i as int)),
        decreases ops@.len() - i,
    {
        proof {
            assert(ops@.take(i as int + 1).drop_last() =~= ops@.take(i as int));
            assert(ops@.take(i as int + 1).last() == ops@[i as int]);
        }
        match ops[i] {
            Operator::Var(c) => {
                if !contains_char(&r, c) {
                    r.push(c);
                }
            },
            _ => {},
        }
        i = i + 1;
    }
    proof {
        assert(ops@.take(ops@.len() as int) =~= ops@);
    }
    r
}

/// The assignment that a bit pattern denotes over an ordered fact list: fact
/// `k` is true exactly when bit `k` is set.
pub open spec fn assign_of(vars: Seq<char>, p: u64) -> Seq<(char, bool)> {
    Seq::new(vars.len(), |k: int| (vars[k], (p >> (k as u64)) & 1u64 == 1u64))
}

/// The satisfying assignments of an antecedent among the bit patterns below
/// a bound, in pattern order.
pub open spec fn spec_truth_table(input: BTree, vars: Seq<char>, bound: nat) -> Seq<
    Seq<(char, bool)>,
>
    decreases bound,
{
    if bound == 0 {
        Seq::empty()
    } else {
        spec_truth_table(input, vars, (bound - 1) as nat) + (if input.eval_env(
            pairs_map(assign_of(vars, (bound - 1) as u64)),
        ) {
            seq![assign_of(vars, (bound - 1) as u64)]
        } else {
            Seq::empty()
        })
    }
}

/// The number of assignments enumerated over `n` distinct facts.
pub open spec fn tt_bound(n: nat) -> nat {
    if n <= 63 {
        (1u64 << (n as u64)) as nat
    } else {
        0
    }
}

/// The satisfying-assignment set of a rule's antecedent.
pub open spec fn rule_table(r: Rule) -> Seq<Seq<(char, bool)>> {
    let vars = dedup_vars(r.input.spec_find_nodes(NodeFilter::Vars));
    spec_truth_table(r.input, vars, tt_bound(vars.len()))
}

/// The message reported when an antecedent has too many distinct facts for
/// exhaustive enumeration.
pub open spec fn arity_err_text() -> Seq<char> {
    "too many distinct facts in antecedent"@
}

/// Enumerates every assignment of the antecedent's distinct facts and keeps
/// the satisfying ones, as `rule_table` describes.  An antecedent over more
/// than 31 distinct facts is beyond exhaustive enumeration and an error.
#[verifier::loop_isolation(false)]
pub fn rule_to_truth_table(rule: &Rule) -> (r: Result<Vec<Assignment>, String>)
    requires
        rule.input.wf(),
    ensures
        ({
            let vars = dedup_vars(rule.input.spec_find_nodes(NodeFilter::Vars));
            &&& r is Ok <==> vars.len() <= 31
            &&& r matches Ok(t) ==> t@.len() == rule_table(*rule).len() && (forall|i: int|
                0 <= i < t@.len() ==> (#[trigger] t@[i]).pairs@ == rule_table(*rule)[i])
            &&& r matches Err(e) ==> e@ == arity_err_text()
        }),
{
    let ops = rule.input.find_nodes(NodeFilter::Vars);
    let vars = dedup_vars_exec(&ops);
    let n = vars.len();
    if n > 31 {
        return Err(String::from_str("too many distinct facts in antecedent"));
    }
    let total: u64 = 1u64 << (n as u64);
    let mut result: Vec<Assignment> = Vec::new();
    let mut p: u64 = 0;
    while p < total
        invariant
            p <= total,
            total == tt_bound(vars@.len()),
            n == vars@.len(),
            n <= 31,
            result@.len() == spec_truth_table(rule.input, vars@, p as nat).len(),
            forall|i: int|
                0 <= i < result@.len() ==> (#[trigger] result@[i]).pairs@ == spec_truth_table(
                    rule.input,
                    vars@,
                    p as nat,
                )[i],
        decreases total - p,
    {
        let mut a = Assignment::new();
        let mut k: usize = 0;
        while k < n
            invariant
                k <= n,
                n == vars@.len(),
                a.pairs@ == assign_of(vars@, p).take(k as int),
            decreases n - k,
        {
            let bit = (p >> (k as u64)) & 1u64 == 1u64;
            a.push_pair(vars[k], bit);
            proof {
                assert(assign_of(vars@, p).take(k as int).push((vars@[k as int], bit)) =~= assign_of(
                    vars@,
                    p,
                ).take(k as int + 1));
            }
            k = k + 1;
        }
        proof {
            assert(assign_of(vars@, p).take(n as int) =~= assign_of(vars@, p));
        }
        let enriched = rule.input.enrich_bool(&a);
        let val = enriched.eval();
        proof {
            lemma_enrich_eval(rule.input, a.as_map());
        }
        if val {
            result.push(a);
        }
        p = p + 1;
    }
    Ok(result)
}

} // verus!

verus! {

/// The satisfying-assignment sets of a rule list, in order.
pub open spec fn tables_of_rules(rules: Seq<Rule>) -> Seq<Seq<(char, bool)>>
    decreases rules.len(),
{
    if rules.len() == 0 {
        Seq::empty()
    } else {
        tables_of_rules(rules.drop_last()) + rule_table(rules.last())
    }
}

/// The satisfying-assignment sets accumulated for one fact during the
/// dependency walk: those of the candidate rule where it concludes the fact,
/// then those of the fact's registered rules.
pub open spec fn fact_tables(v: Variables, rule: Rule, c: char) -> Seq<Seq<(char, bool)>> {
    (if rule.output.spec_find_nodes(NodeFilter::Vars).contains(Operator::Var(c)) {
        rule_table(rule)
    } else {
        Seq::empty()
    }) + (if v.contains(c) {
        tables_of_rules(v.spec_get(c).rules@)
    } else {
        Seq::empty()
    })
}

/// The antecedent fact references of a rule list.
pub open spec fn inputs_of_rules(rules: Seq<Rule>) -> Seq<Operator>
    decreases rules.len(),
{
    if rules.len() == 0 {
        Seq::empty()
    } else {
        inputs_of_rules(rules.drop_last()) + rules.last().input.spec_find_nodes(NodeFilter::Vars)
    }
}

/// The facts feeding one fact in the dependency walk: the antecedent facts
/// of the candidate rule where it concludes the fact, and those of the
/// fact's registered rules.
pub open spec fn deps_of(v: Variables, rule: Rule, c: char) -> Seq<Operator> {
    (if rule.output.spec_find_nodes(NodeFilter::Vars).contains(Operator::Var(c)) {
        rule.input.spec_find_nodes(NodeFilter::Vars)
    } else {
        Seq::empty()
    }) + (if v.contains(c) {
        inputs_of_rules(v.spec_get(c).rules@)
    } else {
        Seq::empty()
    })
}

/// The pair sequences of an assignment list.
pub open spec fn tables_view(t: Seq<Assignment>) -> Seq<Seq<(char, bool)>> {
    t.map_values(|a: Assignment| a.pairs@)
}

/// The facts of a dependency-walk result, in the order they were visited.
pub open spec fn entry_keys(s: Seq<(char, Vec<Assignment>)>) -> Seq<char> {
    s.map_values(|e: (char, Vec<Assignment>)| e.0)
}

/// Every element of a rule list's antecedent references comes from one of
/// its rules.
proof fn lemma_inputs_of_rules_elem(rules: Seq<Rule>, k: int)
    requires
        0 <= k < inputs_of_rules(rules).len(),
    ensures
        exists|j: int, l: int|
            #![trigger rules[j].input.spec_find_nodes(NodeFilter::Vars)[l]]
            0 <= j < rules.len() && 0 <= l < rules[j].input.spec_find_nodes(
                NodeFilter::Vars,
            ).len() && inputs_of_rules(rules)[k] == rules[j].input.spec_find_nodes(
                NodeFilter::Vars,
            )[l],
    decreases rules.len(),
{
    let head = inputs_of_rules(rules.drop_last());
    if k < head.len() {
        lemma_inputs_of_rules_elem(rules.drop_last(), k);
        let (j, l): (int, int) = choose|j: int, l: int|
            #![trigger rules.drop_last()[j].input.spec_find_nodes(NodeFilter::Vars)[l]]
            0 <= j < rules.drop_last().len() && 0 <= l < rules.drop_last()[j].input.spec_find_nodes(
                NodeFilter::Vars,
            ).len() && head[k] == rules.drop_last()[j].input.spec_find_nodes(NodeFilter::Vars)[l];
        assert(rules[j] == rules.drop_last()[j]);
        assert(inputs_of_rules(rules)[k] == rules[j].input.spec_find_nodes(NodeFilter::Vars)[l]);
    } else {
        let j = rules.len() - 1;
        let l = k - head.len();
        assert(inputs_of_rules(rules)[k] == rules[j].input.spec_find_nodes(NodeFilter::Vars)[l]);
    }
}

/// Every dependency of a known fact is a known fact reference.
proof fn lemma_deps_known(v: Variables, rule: Rule, c: char)
    requires
        crate::algo::kb_inv(v),
        v.contains(c),
        forall|k: int|
            0 <= k < crate::algo::rule_vars(rule).len() ==> v.contains(
                (#[trigger] crate::algo::rule_vars(rule)[k])->Var_0,
            ),
    ensures
        forall|k: int|
            0 <= k < deps_of(v, rule, c).len() ==> (#[trigger] deps_of(v, rule, c)[k]) is Var
                && v.contains(deps_of(v, rule, c)[k]->Var_0),
{
    let ds = deps_of(v, rule, c);
    let iv = rule.input.spec_find_nodes(NodeFilter::Vars);
    let head: Seq<Operator> = if rule.output.spec_find_nodes(NodeFilter::Vars).contains(
        Operator::Var(c),
    ) {
        iv
    } else {
        Seq::empty()
    };
    rule.input.lemma_find_nodes_match(NodeFilter::Vars);
    assert forall|k: int| 0 <= k < ds.len() implies (#[trigger] ds[k]) is Var && v.contains(
        ds[k]->Var_0,
    ) by {
        if k < head.len() {
            assert(ds[k] == iv[k]);
            assert(crate::algo::rule_vars(rule)[k] == iv[k]);
        } else {
            let k2 = k - head.len();
            let rs = v.spec_get(c).rules@;
            assert(ds[k] == inputs_of_rules(rs)[k2]);
            lemma_inputs_of_rules_elem(rs, k2);
            let (j, l): (int, int) = choose|j: int, l: int|
                #![trigger rs[j].input.spec_find_nodes(NodeFilter::Vars)[l]]
                0 <= j < rs.len() && 0 <= l < rs[j].input.spec_find_nodes(
                    NodeFilter::Vars,
                ).len() && inputs_of_rules(rs)[k2] == rs[j].input.spec_find_nodes(
                    NodeFilter::Vars,
                )[l];
            crate::algo::lemma_rule_facts(v, c, j);
        }
    }
}

/// Whether a fact of the dependency walk already has an entry.
fn contains_entry(result: &Vec<(char, Vec<Assignment>)>, c: char) -> (r: bool)
    ensures
        r == entry_keys(result@).contains(c),
{
    let mut i: usize = 0;
    while i < result.len()
        invariant
            i <= result@.len(),
            forall|j: int| 0 <= j < i ==> (#[trigger] result@[j]).0 != c,
        decreases result@.len() - i,
    {
        if result[i].0 == c {
            proof {
                assert(entry_keys(result@)[i as int] == c);
            }
            return true;
        }
        i = i + 1;
    }
    proof {
        if entry_keys(result@).contains(c) {
            let j = choose|j: int|
                0 <= j < entry_keys(result@).len() && entry_keys(result@)[j] == c;
            assert(result@[j].0 == c);
        }
    }
    false
}

/// Whether a rule's consequent mentions a fact.
fn outputs_contain(rule: &Rule, c: char) -> (r: bool)
    ensures
        r == rule.output.spec_find_nodes(NodeFilter::Vars).contains(Operator::Var(c)),
{
    let ops = rule.output.find_nodes(NodeFilter::Vars);
    let mut i: usize = 0;
    while i < ops.len()
        invariant
            i <= ops@.len(),
            ops@ == rule.output.spec_find_nodes(NodeFilter::Vars),
            forall|j: int| 0 <= j < i ==> ops@[j] != Operator::Var(c),
        decreases ops@.len() - i,
    {
        if ops[i] == Operator::Var(c) {
            return true;
        }
        i = i + 1;
    }
    false
}

/// Whether every rule feeding a fact's tables is within enumeration arity.
pub open spec fn fact_tables_ok(v: Variables, rule: Rule, c: char) -> bool {
    &&& (rule.output.spec_find_nodes(NodeFilter::Vars).contains(Operator::Var(c)) ==> dedup_vars(
        rule.input.spec_find_nodes(NodeFilter::Vars),
    ).len() <= 31)
    &&& (v.contains(c) ==> forall|j: int|
        0 <= j < v.spec_get(c).rules@.len() ==> dedup_vars(
            (#[trigger] v.spec_get(c).rules@[j]).input.spec_find_nodes(NodeFilter::Vars),
        ).len() <= 31)
}

/// Gathers the satisfying-assignment sets for one fact, as `fact_tables`
/// describes.
#[verifier::loop_isolation(false)]
fn tables_for_fact(variables: &Variables, rule: &Rule, c: char) -> (r: Result<
    Vec<Assignment>,
    String,
>)
    requires
        crate::algo::kb_inv(*variables),
        variables.contains(c),
        rule.input.wf(),
    ensures
        r is Ok <==> fact_tables_ok(*variables, *rule, c),
        r matches Ok(t) ==> tables_view(t@) == fact_tables(*variables, *rule, c),
        r matches Err(e) ==> e@ == arity_err_text(),
{
    let mut out: Vec<Assignment> = Vec::new();
    let ghost cand: Seq<Seq<(char, bool)>> = if rule.output.spec_find_nodes(
        NodeFilter::Vars,
    ).contains(Operator::Var(c)) {
        rule_table(*rule)
    } else {
        Seq::empty()
    };
    if outputs_contain(rule, c) {
        let tt = match rule_to_truth_table(rule) {
            Ok(t) => t,
            Err(e) => {
                return Err(e);
            },
        };
        let mut i: usize = 0;
        while i < tt.len()
            invariant
                i <= tt@.len(),
                tt@.len() == rule_table(*rule).len(),
                forall|j: int|
                    0 <= j < tt@.len() ==> (#[trigger] tt@[j]).pairs@ == rule_table(*rule)[j],
                tables_view(out@) == rule_table(*rule).take(i as int),
            decreases tt@.len() - i,
        {
            let a = tt[i].clone();
            out.push(a);
            proof {
                assert(tables_view(out@) =~= rule_table(*rule).take(i as int + 1));
            }
            i = i + 1;
        }
        proof {
            assert(rule_table(*rule).take(rule_table(*rule).len() as int) =~= rule_table(*rule));
        }
    }
    proof {
        assert(tables_view(out@) =~= cand);
    }
    let var = match variables.get(c) {
        Some(v) => v,
        None => {
            proof {
                assert(false);
            }
            return Err(String::new());
        },
    };
    let mut j: usize = 0;
    while j < var.rules.len()
        invariant
            j <= var.rules@.len(),
            var.rules@ == variables.spec_get(c).rules@,
            tables_view(out@) == cand + tables_of_rules(var.rules@.take(j as int)),
            forall|l: int|
                0 <= l < j ==> dedup_vars(
                    (#[trigger] var.rules@[l]).input.spec_find_nodes(NodeFilter::Vars),
                ).len() <= 31,
        decreases var.rules@.len() - j,
    {
        proof {
            crate::algo::lemma_rule_facts(*variables, c, j as int);
            assert(var.rules@.take(j as int + 1).drop_last() =~= var.rules@.take(j as int));
            assert(var.rules@.take(j as int + 1).last() == var.rules@[j as int]);
        }
        let tt = match rule_to_truth_table(&var.rules[j]) {
            Ok(t) => t,
            Err(e) => {
                return Err(e);
            },
        };
        let mut i: usize = 0;
        while i < tt.len()
            invariant
                i <= tt@.len(),
                tt@.len() == rule_table(var.rules@[j as int]).len(),
                forall|l: int|
                    0 <= l < tt@.len() ==> (#[trigger] tt@[l]).pairs@ == rule_table(
                        var.rules@[j as int],
                    )[l],
                tables_view(out@) == cand + tables_of_rules(var.rules@.take(j as int))
                    + rule_table(var.rules@[j as int]).take(i as int),
            decreases tt@.len() - i,
        {
            let a = tt[i].clone();
            out.push(a);
            proof {
                let prev = cand + tables_of_rules(var.rules@.take(j as int));
                let rt = rule_table(var.rules@[j as int]);
                assert(rt.take(i as int + 1) =~= rt.take(i as int).push(rt[i as int]));
                assert(tables_view(out@) =~= (prev + rt.take(i as int)).push(rt[i as int]));
                assert((prev + rt.take(i as int)).push(rt[i as int]) =~= prev + rt.take(
                    i as int + 1,
                ));
            }
            i = i + 1;
        }
        proof {
            let rt = rule_table(var.rules@[j as int]);
            assert(rt.take(rt.len() as int) =~= rt);
            assert(cand + tables_of_rules(var.rules@.take(j as int)) + rt =~= cand
                + tables_of_rules(var.rules@.take(j as int + 1)));
        }
        j = j + 1;
    }
    proof {
        assert(var.rules@.take(var.rules@.len() as int) =~= var.rules@);
        assert(tables_view(out@) =~= fact_tables(*variables, *rule, c));
    }
    Ok(out)
}

/// Gathers the facts feeding one fact, as `deps_of` describes.
#[verifier::loop_isolation(false)]
fn deps_for_fact(variables: &Variables, rule: &Rule, c: char) -> (r: Vec<Operator>)
    requires
        crate::algo::kb_inv(*variables),
        variables.contains(c),
    ensures
        r@ == deps_of(*variables, *rule, c),
{
    let mut out: Vec<Operator> = Vec::new();
    if outputs_contain(rule, c) {
        let mut iv = rule.input.find_nodes(NodeFilter::Vars);
        out.append(&mut iv);
    }
    let ghost head: Seq<Operator> = if rule.output.spec_find_nodes(NodeFilter::Vars).contains(
        Operator::Var(c),
    ) {
        rule.input.spec_find_nodes(NodeFilter::Vars)
    } else {
        Seq::empty()
    };
    proof {
        assert(out@ =~= head);
    }
    let var = match variables.get(c) {
        Some(v) => v,
        None => {
            proof {
                assert(false);
            }
            return out;
        },
    };
    let mut j: usize = 0;
    while j < var.rules.len()
        invariant
            j <= var.rules@.len(),
            var.rules@ == variables.spec_get(c).rules@,
            out@ == head + inputs_of_rules(var.rules@.take(j as int)),
        decreases var.rules@.len() - j,
    {
        proof {
            assert(var.rules@.take(j as int + 1).drop_last() =~= var.rules@.take(j as int));
            assert(var.rules@.take(j as int + 1).last() == var.rules@[j as int]);
        }
        let mut iv = var.rules[j].input.find_nodes(NodeFilter::Vars);
        out.append(&mut iv);
        proof {
            assert(out@ =~= head + inputs_of_rules(var.rules@.take(j as int + 1)));
        }
        j = j + 1;
    }
    proof {
        assert(var.rules@.take(var.rules@.len() as int) =~= var.rules@);
        assert(out@ =~= deps_of(*variables, *rule, c));
    }
    out
}

/// Adding entries only extends the visited facts, so the walk's measure
/// shrinks strictly when an unvisited known fact is added.
proof fn lemma_dfs_measure(keys: Seq<char>, a: Seq<char>, b: Seq<char>, c: char)
    requires
        keys.contains(c),
        !a.contains(c),
        b.contains(c),
        forall|x: char| a.contains(x) ==> b.contains(x),
    ensures
        keys.to_set().difference(b.to_set()).len() < keys.to_set().difference(a.to_set()).len(),
{
    broadcast use vstd::set::group_set_axioms, vstd::seq_lib::seq_to_set_is_finite;

    let kk = keys.to_set();
    let sa = kk.difference(a.to_set());
    let sb = kk.difference(b.to_set());
    assert(kk.finite());
    assert(sa.finite());
    assert(sa.contains(c));
    assert(sb.subset_of(sa.remove(c)));
    vstd::set_lib::lemma_len_subset(sb, sa.remove(c));
    assert(sa.remove(c).len() == sa.len() - 1);
}

} // verus!

verus! {

/// A key of a shorter entry list stays a key of any extension of it.
proof fn lemma_entry_keys_prefix(a: Seq<(char, Vec<Assignment>)>, b: Seq<(char, Vec<Assignment>)>)
    requires
        a.len() <= b.len(),
        b.take(a.len() as int) == a,
    ensures
        forall|x: char| entry_keys(a).contains(x) ==> entry_keys(b).contains(x),
{
    assert forall|x: char| entry_keys(a).contains(x) implies entry_keys(b).contains(x) by {
        let i = choose|i: int| 0 <= i < entry_keys(a).len() && entry_keys(a)[i] == x;
        assert(a[i].0 == x);
        assert(b.take(a.len() as int)[i] == a[i]);
        assert(entry_keys(b)[i] == x);
    }
}

/// Walks the dependency graph from one fact: records the fact's
/// satisfying-assignment sets, then visits every fact feeding it, each fact
/// at most once.  The facts visited on the walk keep, each, exactly the
/// tables that `fact_tables` gives them, and every dependency of a visited
/// fact is itself visited.
#[verifier::loop_isolation(false)]
pub fn check_loop_2(
    variables: &Variables,
    rule: &Rule,
    c: char,
    result: &mut Vec<(char, Vec<Assignment>)>,
) -> (r: Result<(), String>)
    requires
        crate::algo::kb_inv(*variables),
        variables.contains(c),
        rule.input.wf(),
        forall|k: int|
            0 <= k < crate::algo::rule_vars(*rule).len() ==> variables.contains(
                (#[trigger] crate::algo::rule_vars(*rule)[k])->Var_0,
            ),
    ensures
        final(result)@.len() >= old(result)@.len(),
        final(result)@.take(old(result)@.len() as int) == old(result)@,
        r matches Err(e) ==> e@ == arity_err_text(),
        r is Ok ==> entry_keys(final(result)@).contains(c),
        r is Ok ==> forall|idx: int|
            old(result)@.len() <= idx < final(result)@.len() ==> {
                let e = #[trigger] final(result)@[idx];
                &&& variables.contains(e.0)
                &&& !entry_keys(old(result)@).contains(e.0)
                &&& tables_view(e.1@) == fact_tables(*variables, *rule, e.0)
                &&& forall|k: int|
                    0 <= k < deps_of(*variables, *rule, e.0).len() ==> entry_keys(
                        final(result)@,
                    ).contains((#[trigger] deps_of(*variables, *rule, e.0)[k])->Var_0)
            },
        r is Err ==> exists|d: char|
            #[trigger] variables.contains(d) && !fact_tables_ok(*variables, *rule, d),
        (forall|d: char|
            #[trigger] variables.contains(d) ==> fact_tables_ok(*variables, *rule, d)) ==> r is Ok,
    decreases variables.keys().to_set().difference(entry_keys(old(result)@).to_set()).len(),
{
    if contains_entry(result, c) {
        return Ok(());
    }
    let tables = match tables_for_fact(variables, rule, c) {
        Ok(t) => t,
        Err(e) => {
            return Err(e);
        },
    };
    let deps = deps_for_fact(variables, rule, c);
    proof {
        lemma_deps_known(*variables, *rule, c);
    }
    let ghost r0 = result@;
    let ghost ftab = tables_view(tables@);
    result.push((c, tables));
    proof {
        assert(result@.take(r0.len() as int) =~= r0);
        assert(entry_keys(result@)[r0.len() as int] == c);
        assert(entry_keys(result@).contains(c));
    }
    let mut k: usize = 0;
    while k < deps.len()
        invariant
            k <= deps@.len(),
            result@.len() > r0.len(),
            result@.take(r0.len() as int) == r0,
            entry_keys(result@).contains(c),
            deps@ == deps_of(*variables, *rule, c),
            result@[r0.len() as int].0 == c,
            forall|idx: int|
                r0.len() <= idx < result@.len() ==> {
                    let e = #[trigger] result@[idx];
                    &&& variables.contains(e.0)
                    &&& !entry_keys(r0).contains(e.0)
                    &&& tables_view(e.1@) == fact_tables(*variables, *rule, e.0)
                },
            forall|idx: int|
                r0.len() < idx < result@.len() ==> (forall|k2: int|
                    0 <= k2 < deps_of(*variables, *rule, (#[trigger] result@[idx]).0).len()
                        ==> entry_keys(result@).contains(
                        (#[trigger] deps_of(*variables, *rule, result@[idx].0)[k2])->Var_0,
                    )),
            forall|k2: int|
                0 <= k2 < k ==> entry_keys(result@).contains((#[trigger] deps@[k2])->Var_0),
        decreases deps@.len() - k,
    {
        let d = match deps[k] {
            Operator::Var(ch) => ch,
            _ => {
                proof {
                    assert(false);
                }
                '/'
            },
        };
        let ghost rb = result@;
        proof {
            // The walk's measure shrinks: the current fact was unvisited and
            // is now recorded.
            lemma_entry_keys_prefix(r0, rb);
            crate::kb::lemma_key_semantics(*variables);
            assert(variables.keys()[variables.key_at(c)] == c);
            assert(variables.keys().contains(c));
            lemma_dfs_measure(variables.keys(), entry_keys(r0), entry_keys(rb), c);
        }
        match check_loop_2(variables, rule, d, result) {
            Ok(u) => {
                proof {
                    assert(result@.take(r0.len() as int) =~= result@.take(rb.len() as int).take(
                        r0.len() as int,
                    ));
                    lemma_entry_keys_prefix(rb, result@);
                    assert forall|idx: int| r0.len() <= idx < result@.len() implies {
                        let e = #[trigger] result@[idx];
                        &&& variables.contains(e.0)
                        &&& !entry_keys(r0).contains(e.0)
                        &&& tables_view(e.1@) == fact_tables(*variables, *rule, e.0)
                    } by {
                        if idx < rb.len() {
                            assert(result@[idx] == result@.take(rb.len() as int)[idx]);
                            assert(result@[idx] == rb[idx]);
                        } else {
                            assert(!entry_keys(rb).contains(result@[idx].0));
                            if entry_keys(r0).contains(result@[idx].0) {
                                lemma_entry_keys_prefix(r0, rb);
                            }
                        }
                    }
                    assert forall|idx: int| r0.len() < idx < result@.len() implies (forall|k2: int|
                        0 <= k2 < deps_of(*variables, *rule, (#[trigger] result@[idx]).0).len()
                            ==> entry_keys(result@).contains(
                            (#[trigger] deps_of(*variables, *rule, result@[idx].0)[k2])->Var_0,
                        )) by {
                        if idx < rb.len() {
                            assert(result@[idx] == result@.take(rb.len() as int)[idx]);
                            assert(result@[idx] == rb[idx]);
                            assert forall|k2: int|
                                0 <= k2 < deps_of(*variables, *rule, result@[idx].0).len()
                                implies entry_keys(result@).contains(
                                (#[trigger] deps_of(*variables, *rule, result@[idx].0)[k2])->Var_0,
                            ) by {
                                assert(entry_keys(rb).contains(
                                    deps_of(*variables, *rule, rb[idx].0)[k2]->Var_0,
                                ));
                            }
                        }
                    }
                    assert(result@[r0.len() as int].0 == c) by {
                        assert(result@[r0.len() as int] == result@.take(rb.len() as int)[r0.len() as int]);
                        assert(result@[r0.len() as int] == rb[r0.len() as int]);
                    }
                }
            },
            Err(e) => {
                proof {
                    assert(result@.take(r0.len() as int) =~= result@.take(rb.len() as int).take(
                        r0.len() as int,
                    ));
                }
                return Err(e);
            },
        }
        k = k + 1;
    }
    Ok(())
}

} // verus!

verus! {

/// The tables of an entry list, by fact.
pub open spec fn entries_view(s: Seq<(char, Vec<Assignment>)>) -> Seq<
    (char, Seq<Seq<(char, bool)>>),
> {
    s.map_values(|e: (char, Vec<Assignment>)| (e.0, tables_view(e.1@)))
}

/// Whether the walk recorded, for `key`, a satisfying assignment that
/// itself constrains `out`: the mutual dependence under which a conflicting
/// requirement is a contradiction.
pub open spec fn entries_mention(
    es: Seq<(char, Seq<Seq<(char, bool)>>)>,
    key: char,
    out: char,
) -> bool {
    exists|i: int, j: int|
        #![trigger es[i].1[j]]
        0 <= i < es.len() && es[i].0 == key && 0 <= j < es[i].1.len() && pairs_map(
            es[i].1[j],
        ).contains_key(out)
}

/// Merges one assignment's required input values into a fact's requirement
/// map: the first write of an input wins; a later conflicting write is a
/// contradiction when that input's own tables mention the fact.
pub open spec fn merge_pairs(
    m: Map<char, bool>,
    es: Seq<(char, Seq<Seq<(char, bool)>>)>,
    out: char,
    ps: Seq<(char, bool)>,
) -> Result<Map<char, bool>, ()>
    decreases ps.len(),
{
    if ps.len() == 0 {
        Ok(m)
    } else {
        let p = ps[0];
        if m.contains_key(p.0) && m[p.0] != p.1 && entries_mention(es, p.0, out) {
            Err(())
        } else if m.contains_key(p.0) {
            merge_pairs(m, es, out, ps.drop_first())
        } else {
            merge_pairs(m.insert(p.0, p.1), es, out, ps.drop_first())
        }
    }
}

/// Merges a fact's tables in order.
pub open spec fn merge_tables(
    m: Map<char, bool>,
    es: Seq<(char, Seq<Seq<(char, bool)>>)>,
    out: char,
    ts: Seq<Seq<(char, bool)>>,
) -> Result<Map<char, bool>, ()>
    decreases ts.len(),
{
    if ts.len() == 0 {
        Ok(m)
    } else {
        match merge_pairs(m, es, out, ts[0]) {
            Ok(m2) => merge_tables(m2, es, out, ts.drop_first()),
            Err(e) => Err(e),
        }
    }
}

/// The merge continued from the middle of one table.
pub open spec fn merge_cont(
    m: Map<char, bool>,
    es: Seq<(char, Seq<Seq<(char, bool)>>)>,
    out: char,
    ps: Seq<(char, bool)>,
    ts: Seq<Seq<(char, bool)>>,
) -> Result<Map<char, bool>, ()> {
    match merge_pairs(m, es, out, ps) {
        Ok(m2) => merge_tables(m2, es, out, ts),
        Err(e) => Err(e),
    }
}

/// Whether one fact's accumulated requirements merge without contradiction.
pub open spec fn entry_ok(es: Seq<(char, Seq<Seq<(char, bool)>>)>, i: int) -> bool {
    merge_tables(Map::empty(), es, es[i].0, es[i].1) is Ok
}

/// Whether every visited fact's requirements merge without contradiction.
pub open spec fn spec_no_conflict(es: Seq<(char, Seq<Seq<(char, bool)>>)>) -> bool {
    forall|i: int| 0 <= i < es.len() ==> entry_ok(es, i)
}

/// Decides `entries_mention`.
#[verifier::loop_isolation(false)]
fn mention_exec(result: &Vec<(char, Vec<Assignment>)>, key: char, out: char) -> (r: bool)
    ensures
        r == entries_mention(entries_view(result@), key, out),
{
    let ghost es = entries_view(result@);
    let mut i: usize = 0;
    while i < result.len()
        invariant
            i <= result@.len(),
            forall|ii: int, j: int|
                #![trigger es[ii].1[j]]
                0 <= ii < i && 0 <= j < es[ii].1.len() ==> !(es[ii].0 == key && pairs_map(
                    es[ii].1[j],
                ).contains_key(out)),
        decreases result@.len() - i,
    {
        if result[i].0 == key {
            let tables = &result[i].1;
            let mut j: usize = 0;
            while j < tables.len()
                invariant
                    j <= tables@.len(),
                    tables@ == result@[i as int].1@,
                    i < result@.len(),
                    forall|l: int|
                        0 <= l < j ==> !pairs_map(es[i as int].1[l]).contains_key(out),
                decreases tables@.len() - j,
            {
                let got = tables[j].get(out);
                proof {
                    assert(es[i as int].1[j as int] == tables@[j as int].pairs@);
                }
                if got.is_some() {
                    proof {
                        assert(es[i as int].0 == key && pairs_map(
                            es[i as int].1[j as int],
                        ).contains_key(out));
                    }
                    return true;
                }
                j = j + 1;
            }
        }
        i = i + 1;
    }
    proof {
        if entries_mention(es, key, out) {
            let (ii, j): (int, int) = choose|ii: int, j: int|
                #![trigger es[ii].1[j]]
                0 <= ii < es.len() && es[ii].0 == key && 0 <= j < es[ii].1.len() && pairs_map(
                    es[ii].1[j],
                ).contains_key(out);
            assert(!(es[ii].0 == key && pairs_map(es[ii].1[j]).contains_key(out)));
        }
    }
    false
}

/// Decides `entry_ok` for one visited fact.
#[verifier::loop_isolation(false)]
fn entry_merge_exec(result: &Vec<(char, Vec<Assignment>)>, idx: usize) -> (r: bool)
    requires
        idx < result@.len(),
    ensures
        r == entry_ok(entries_view(result@), idx as int),
{
    let ghost es = entries_view(result@);
    let out = result[idx].0;
    proof {
        assert(es[idx as int].0 == out);
        assert(es[idx as int].1 == tables_view(result@[idx as int].1@));
    }
    let mut m = Assignment::new();
    proof {
        assert(m.as_map() =~= Map::<char, bool>::empty());
        assert(es[idx as int].1.skip(0) =~= es[idx as int].1);
    }
    let mut ti: usize = 0;
    while ti < result[idx].1.len()
        invariant
            ti <= result@[idx as int].1@.len(),
            es[idx as int].1.len() == result@[idx as int].1@.len(),
            merge_tables(m.as_map(), es, out, es[idx as int].1.skip(ti as int)) == merge_tables(
                Map::empty(),
                es,
                out,
                es[idx as int].1,
            ),
        decreases result@[idx as int].1@.len() - ti,
    {
        let table = &result[idx].1[ti];
        proof {
            assert(es[idx as int].1[ti as int] == table.pairs@);
            assert(es[idx as int].1.skip(ti as int)[0] == table.pairs@);
            assert(es[idx as int].1.skip(ti as int).drop_first() =~= es[idx as int].1.skip(
                ti as int + 1,
            ));
            assert(table.pairs@.skip(0) =~= table.pairs@);
        }
        let mut pi: usize = 0;
        while pi < table.pairs.len()
            invariant
                pi <= table.pairs@.len(),
                merge_cont(
                    m.as_map(),
                    es,
                    out,
                    table.pairs@.skip(pi as int),
                    es[idx as int].1.skip(ti as int + 1),
                ) == merge_tables(Map::empty(), es, out, es[idx as int].1),
            decreases table.pairs@.len() - pi,
        {
            let p = table.pairs[pi];
            let ghost m0 = m.as_map();
            let ghost psk = table.pairs@.skip(pi as int);
            proof {
                assert(psk[0] == p);
                assert(psk.drop_first() =~= table.pairs@.skip(pi as int + 1));
            }
            match m.get(p.0) {
                Some(v) => {
                    proof {
                        assert(m0.contains_key(p.0) && m0[p.0] == v);
                    }
                    if v != p.1 {
                        if mention_exec(result, p.0, out) {
                            proof {
                                assert(merge_pairs(m0, es, out, psk) == Err::<
                                    Map<char, bool>,
                                    (),
                                >(()));
                            }
                            return false;
                        }
                        proof {
                            assert(merge_pairs(m0, es, out, psk) == merge_pairs(
                                m0,
                                es,
                                out,
                                psk.drop_first(),
                            ));
                        }
                    } else {
                        proof {
                            assert(merge_pairs(m0, es, out, psk) == merge_pairs(
                                m0,
                                es,
                                out,
                                psk.drop_first(),
                            ));
                        }
                    }
                },
                None => {
                    proof {
                        assert(!m0.contains_key(p.0));
                        assert(merge_pairs(m0, es, out, psk) == merge_pairs(
                            m0.insert(p.0, p.1),
                            es,
                            out,
                            psk.drop_first(),
                        ));
                    }
                    let ghost mp0 = m.pairs@;
                    m.push_pair(p.0, p.1);
                    proof {
                        assert(m.pairs@.drop_last() =~= mp0);
                        assert(m.as_map() == pairs_map(mp0).insert(p.0, p.1));
                        assert(m.as_map() == m0.insert(p.0, p.1));
                    }
                },
            }
            pi = pi + 1;
        }
        proof {
            assert(table.pairs@.skip(table.pairs@.len() as int) =~= Seq::<(char, bool)>::empty());
        }
        ti = ti + 1;
    }
    proof {
        assert(es[idx as int].1.skip(es[idx as int].1.len() as int) =~= Seq::<
            Seq<(char, bool)>,
        >::empty());
    }
    true
}

/// The error reported when a candidate rule contradicts the rule set.
pub open spec fn contradiction_err_text(rule: Rule) -> Seq<char> {
    "contradiction in rule"@ + rule.formula_string@
}

/// The visited facts of a completed walk.
pub open spec fn walk_keys(es: Seq<(char, Seq<Seq<(char, bool)>>)>) -> Seq<char> {
    es.map_values(|e: (char, Seq<Seq<(char, bool)>>)| e.0)
}

/// What a completed dependency walk from one fact looks like: the fact is
/// visited, every visited fact is known and carries exactly its
/// satisfying-assignment tables, and every fact feeding a visited fact is
/// itself visited.
pub open spec fn walk_ok(
    v: Variables,
    rule: Rule,
    start: char,
    es: Seq<(char, Seq<Seq<(char, bool)>>)>,
) -> bool {
    &&& walk_keys(es).contains(start)
    &&& forall|idx: int|
        0 <= idx < es.len() ==> {
            let e = #[trigger] es[idx];
            &&& v.contains(e.0)
            &&& e.1 == fact_tables(v, rule, e.0)
            &&& forall|k: int|
                0 <= k < deps_of(v, rule, e.0).len() ==> walk_keys(es).contains(
                    (#[trigger] deps_of(v, rule, e.0)[k])->Var_0,
                )
        }
}

/// A walk recorded as entry vectors satisfies `walk_ok` of its view.
proof fn lemma_walk_bridge(v: Variables, rule: Rule, c: char, rs: Seq<(char, Vec<Assignment>)>)
    requires
        entry_keys(rs).contains(c),
        forall|idx: int|
            0 <= idx < rs.len() ==> {
                let e = #[trigger] rs[idx];
                &&& v.contains(e.0)
                &&& tables_view(e.1@) == fact_tables(v, rule, e.0)
                &&& forall|k: int|
                    0 <= k < deps_of(v, rule, e.0).len() ==> entry_keys(rs).contains(
                        (#[trigger] deps_of(v, rule, e.0)[k])->Var_0,
                    )
            },
    ensures
        walk_ok(v, rule, c, entries_view(rs)),
{
    let es = entries_view(rs);
    assert(walk_keys(es) =~= entry_keys(rs));
    assert forall|idx: int| 0 <= idx < es.len() implies {
        let e = #[trigger] es[idx];
        &&& v.contains(e.0)
        &&& e.1 == fact_tables(v, rule, e.0)
        &&& forall|k: int|
            0 <= k < deps_of(v, rule, e.0).len() ==> walk_keys(es).contains(
                (#[trigger] deps_of(v, rule, e.0)[k])->Var_0,
            )
    } by {
        assert(es[idx].0 == rs[idx].0);
        assert(es[idx].1 == tables_view(rs[idx].1@));
    }
}

/// Whether some completed walk from a fact of the rule's consequent merges
/// with a contradiction.
pub open spec fn conflicting_walk(v: Variables, rule: Rule) -> bool {
    exists|d: char, es: Seq<(char, Seq<Seq<(char, bool)>>)>|
        #![trigger walk_ok(v, rule, d, es)]
        rule.output.spec_find_nodes(NodeFilter::Vars).contains(Operator::Var(d)) && walk_ok(
            v,
            rule,
            d,
            es,
        ) && !spec_no_conflict(es)
}

/// Checks a candidate rule against the knowledge base: for every fact of
/// its consequent, walks the dependency graph of the facts feeding it and
/// rejects the rule when two satisfying paths put contradictory requirements
/// on a mutually dependent fact.  It accepts whenever every feeding rule is
/// within enumeration arity and no completed walk merges with a conflict;
/// each error names its cause.
#[verifier::loop_isolation(false)]
pub fn check_loop(variables: &Variables, rule: &Rule) -> (r: Result<(), String>)
    requires
        crate::algo::kb_inv(*variables),
        rule.input.wf(),
        rule.output.wf(),
        forall|k: int|
            0 <= k < crate::algo::rule_vars(*rule).len() ==> variables.contains(
                (#[trigger] crate::algo::rule_vars(*rule)[k])->Var_0,
            ),
    ensures
        r matches Err(e) ==> e@ == contradiction_err_text(*rule) || e@ == arity_err_text(),
        r matches Err(e) && e@ == arity_err_text() ==> exists|d: char|
            #[trigger] variables.contains(d) && !fact_tables_ok(*variables, *rule, d),
        r matches Err(e) && e@ == contradiction_err_text(*rule) ==> conflicting_walk(
            *variables,
            *rule,
        ),
        ((forall|d: char|
            #[trigger] variables.contains(d) ==> fact_tables_ok(*variables, *rule, d))
            && !conflicting_walk(*variables, *rule)) ==> r is Ok,
        r is Ok ==> forall|d: char|
            rule.output.spec_find_nodes(NodeFilter::Vars).contains(Operator::Var(d))
                ==> exists|es: Seq<(char, Seq<Seq<(char, bool)>>)>|
                #[trigger] walk_ok(*variables, *rule, d, es) && spec_no_conflict(es),
{
    let outs = rule.output.find_nodes(NodeFilter::Vars);
    proof {
        rule.output.lemma_find_nodes_match(NodeFilter::Vars);
        reveal_strlit("contradiction in rule");
        reveal_strlit("too many distinct facts in antecedent");
    }
    let mut i: usize = 0;
    while i < outs.len()
        invariant
            i <= outs@.len(),
            outs@ == rule.output.spec_find_nodes(NodeFilter::Vars),
            forall|n: int|
                0 <= n < i ==> exists|es: Seq<(char, Seq<Seq<(char, bool)>>)>|
                    #[trigger] walk_ok(*variables, *rule, (#[trigger] outs@[n])->Var_0, es)
                        && spec_no_conflict(es),
        decreases outs@.len() - i,
    {
        let v0 = match outs[i] {
            Operator::Var(ch) => ch,
            _ => {
                proof {
                    assert(false);
                }
                '/'
            },
        };
        proof {
            let iv = rule.input.spec_find_nodes(NodeFilter::Vars);
            assert(crate::algo::rule_vars(*rule)[iv.len() + i] == outs@[i as int]);
            assert(variables.contains(v0));
        }
        let mut result: Vec<(char, Vec<Assignment>)> = Vec::new();
        match check_loop_2(variables, rule, v0, &mut result) {
            Ok(u) => {},
            Err(e) => {
                proof {
                    assert(e@ != contradiction_err_text(*rule)) by {
                        assert(e@[0] != contradiction_err_text(*rule)[0]);
                    }
                }
                return Err(e);
            },
        }
        proof {
            assert(result@.take(0int) =~= Seq::<(char, Vec<Assignment>)>::empty());
            lemma_walk_bridge(*variables, *rule, v0, result@);
        }
        let ghost es = entries_view(result@);
        let mut idx: usize = 0;
        while idx < result.len()
            invariant
                idx <= result@.len(),
                es == entries_view(result@),
                walk_ok(*variables, *rule, v0, es),
                forall|n: int| 0 <= n < idx ==> entry_ok(es, n),
            decreases result@.len() - idx,
        {
            if !entry_merge_exec(&result, idx) {
                let mut e = String::from_str("contradiction in rule");
                e.append(rule.formula_string.as_str());
                proof {
                    assert(!spec_no_conflict(es));
                    assert(conflicting_walk(*variables, *rule));
                    assert(e@ != arity_err_text()) by {
                        assert(e@[0] != arity_err_text()[0]);
                    }
                }
                return Err(e);
            }
            idx = idx + 1;
        }
        proof {
            assert(spec_no_conflict(es));
            assert forall|n: int| 0 <= n < i + 1 implies exists|
                es2: Seq<(char, Seq<Seq<(char, bool)>>)>,
            |
                #[trigger] walk_ok(*variables, *rule, (#[trigger] outs@[n])->Var_0, es2)
                    && spec_no_conflict(es2) by {
                if n == i {
                    assert(walk_ok(*variables, *rule, outs@[n]->Var_0, es) && spec_no_conflict(
                        es,
                    ));
                }
            }
        }
        i = i + 1;
    }
    proof {
        assert forall|d: char|
            rule.output.spec_find_nodes(NodeFilter::Vars).contains(Operator::Var(d))
            implies exists|es2: Seq<(char, Seq<Seq<(char, bool)>>)>|
            #[trigger] walk_ok(*variables, *rule, d, es2) && spec_no_conflict(es2) by {
            let n = choose|n: int|
                0 <= n < outs@.len() && outs@[n] == Operator::Var(d);
            assert(outs@[n]->Var_0 == d);
        }
    }
    Ok(())
}

} // verus!

verus! {

/// The text of an optional alias.
pub open spec fn opt_text(o: Option<String>) -> Option<Seq<char>> {
    match o {
        Some(s) => Some(s@),
        None => None,
    }
}

/// A store change that keeps every fact's name and rules in place keeps the
/// knowledge-base invariant.
pub proof fn lemma_inv_rules_preserved(v1: Variables, v2: Variables)
    requires
        crate::algo::kb_inv(v1),
        v2.wf(),
        v2.list@.len() == v1.list@.len(),
        forall|i: int|
            #![trigger v2.list@[i]]
            0 <= i < v1.list@.len() ==> v2.list@[i].0 == v1.list@[i].0 && v2.list@[i].1.rules@
                == v1.list@[i].1.rules@,
    ensures
        crate::algo::kb_inv(v2),
{
    assert forall|c: char| #[trigger] v2.contains(c) == v1.contains(c) by {
        if v1.contains(c) {
            let k = v1.key_at(c);
            assert(v2.list@[k].0 == c);
        }
        if v2.contains(c) {
            let k = v2.key_at(c);
            assert(v1.list@[k].0 == c);
        }
    }
    assert forall|i: int, j: int, k: int|
        #![trigger crate::algo::rule_vars(v2.list@[i].1.rules@[j])[k]]
        0 <= i < v2.list@.len() && 0 <= j < v2.list@[i].1.rules@.len() && 0 <= k
            < crate::algo::rule_vars(v2.list@[i].1.rules@[j]).len() implies v2.contains(
        crate::algo::rule_vars(v2.list@[i].1.rules@[j])[k]->Var_0,
    ) by {
        assert(v2.list@[i].1.rules@ == v1.list@[i].1.rules@);
        assert(v1.contains(crate::algo::rule_vars(v1.list@[i].1.rules@[j])[k]->Var_0));
    }
    assert forall|i: int, j: int|
        #![trigger v2.list@[i].1.rules@[j]]
        0 <= i < v2.list@.len() && 0 <= j < v2.list@[i].1.rules@.len() implies {
        &&& v2.list@[i].1.rules@[j].shape_ok()
        &&& v2.list@[i].1.rules@[j].output.spec_find_nodes(NodeFilter::Vars).contains(
            Operator::Var(v2.list@[i].0),
        )
    } by {
        assert(v2.list@[i].1.rules@ == v1.list@[i].1.rules@);
        assert(v1.list@[i].1.rules@[j].shape_ok());
    }
}

/// Adding a fresh fact without rules keeps the knowledge-base invariant.
pub proof fn lemma_inv_insert(v1: Variables, v2: Variables, c: char, var: Variable)
    requires
        crate::algo::kb_inv(v1),
        !v1.contains(c),
        v2.wf(),
        v2.list@ == v1.list@.push((c, var)),
        var.rules@ == Seq::<Rule>::empty(),
    ensures
        crate::algo::kb_inv(v2),
{
    assert forall|d: char| #[trigger] v1.contains(d) implies v2.contains(d) by {
        let k = v1.key_at(d);
        assert(v2.list@[k].0 == d);
    }
    assert forall|i: int, j: int, k: int|
        #![trigger crate::algo::rule_vars(v2.list@[i].1.rules@[j])[k]]
        0 <= i < v2.list@.len() && 0 <= j < v2.list@[i].1.rules@.len() && 0 <= k
            < crate::algo::rule_vars(v2.list@[i].1.rules@[j]).len() implies v2.contains(
        crate::algo::rule_vars(v2.list@[i].1.rules@[j])[k]->Var_0,
    ) by {
        if i < v1.list@.len() {
            assert(v2.list@[i] == v1.list@[i]);
            assert(v1.contains(crate::algo::rule_vars(v1.list@[i].1.rules@[j])[k]->Var_0));
        } else {
            assert(v2.list@[i].1.rules@.len() == 0);
        }
    }
    assert forall|i: int, j: int|
        #![trigger v2.list@[i].1.rules@[j]]
        0 <= i < v2.list@.len() && 0 <= j < v2.list@[i].1.rules@.len() implies {
        &&& v2.list@[i].1.rules@[j].shape_ok()
        &&& v2.list@[i].1.rules@[j].output.spec_find_nodes(NodeFilter::Vars).contains(
            Operator::Var(v2.list@[i].0),
        )
    } by {
        if i < v1.list@.len() {
            assert(v2.list@[i] == v1.list@[i]);
            assert(v1.list@[i].1.rules@[j].shape_ok());
        } else {
            assert(v2.list@[i].1.rules@.len() == 0);
        }
    }
}

/// Appending a well-shaped rule under a fact of its consequent keeps the
/// knowledge-base invariant.
pub proof fn lemma_inv_push_rule(v1: Variables, v2: Variables, c: char, r: Rule)
    requires
        crate::algo::kb_inv(v1),
        v1.contains(c),
        v2.wf(),
        v2.list@.len() == v1.list@.len(),
        forall|i: int|
            #![trigger v2.list@[i]]
            0 <= i < v1.list@.len() ==> v2.list@[i].0 == v1.list@[i].0 && (v2.list@[i].1.rules@
                == v1.list@[i].1.rules@ || (i == v1.key_at(c) && v2.list@[i].1.rules@
                == v1.list@[i].1.rules@.push(r))),
        r.shape_ok(),
        r.output.spec_find_nodes(NodeFilter::Vars).contains(Operator::Var(c)),
        forall|k: int|
            0 <= k < crate::algo::rule_vars(r).len() ==> v1.contains(
                (#[trigger] crate::algo::rule_vars(r)[k])->Var_0,
            ),
    ensures
        crate::algo::kb_inv(v2),
{
    crate::kb::lemma_key_semantics(v1);
    assert forall|d: char| #[trigger] v2.contains(d) == v1.contains(d) by {
        if v1.contains(d) {
            let k = v1.key_at(d);
            assert(v2.list@[k].0 == d);
        }
        if v2.contains(d) {
            let k = v2.key_at(d);
            assert(v1.list@[k].0 == d);
        }
    }
    assert forall|i: int, j: int, k: int|
        #![trigger crate::algo::rule_vars(v2.list@[i].1.rules@[j])[k]]
        0 <= i < v2.list@.len() && 0 <= j < v2.list@[i].1.rules@.len() && 0 <= k
            < crate::algo::rule_vars(v2.list@[i].1.rules@[j]).len() implies v2.contains(
        crate::algo::rule_vars(v2.list@[i].1.rules@[j])[k]->Var_0,
    ) by {
        if v2.list@[i].1.rules@ == v1.list@[i].1.rules@ {
            assert(v1.contains(crate::algo::rule_vars(v1.list@[i].1.rules@[j])[k]->Var_0));
        } else {
            if j < v1.list@[i].1.rules@.len() {
                assert(v2.list@[i].1.rules@[j] == v1.list@[i].1.rules@[j]);
                assert(v1.contains(crate::algo::rule_vars(v1.list@[i].1.rules@[j])[k]->Var_0));
            } else {
                assert(v2.list@[i].1.rules@[j] == r);
            }
        }
    }
    assert forall|i: int, j: int|
        #![trigger v2.list@[i].1.rules@[j]]
        0 <= i < v2.list@.len() && 0 <= j < v2.list@[i].1.rules@.len() implies {
        &&& v2.list@[i].1.rules@[j].shape_ok()
        &&& v2.list@[i].1.rules@[j].output.spec_find_nodes(NodeFilter::Vars).contains(
            Operator::Var(v2.list@[i].0),
        )
    } by {
        if v2.list@[i].1.rules@ == v1.list@[i].1.rules@ {
            assert(v1.list@[i].1.rules@[j].shape_ok());
        } else {
            if j < v1.list@[i].1.rules@.len() {
                assert(v2.list@[i].1.rules@[j] == v1.list@[i].1.rules@[j]);
                assert(v1.list@[i].1.rules@[j].shape_ok());
            } else {
                assert(v2.list@[i].1.rules@[j] == r);
                assert(v2.list@[i].0 == c);
            }
        }
    }
}

/// A word that the rule language reserves: any operator spelling, or one of
/// the command words.
pub open spec fn is_reserved_word(t: Seq<char>) -> bool {
    crate::models::token_of(t) is Some || t == "if"@ || t == "def"@ || t == "?"@
}

fn is_reserved_exec(s: &str) -> (r: bool)
    ensures
        r == is_reserved_word(s@),
{
    Operator::from_str(s).is_some() || str_eq(s, "if") || str_eq(s, "def") || str_eq(s, "?")
}

/// Whether some other fact already uses this text as one of its aliases.
pub open spec fn alias_taken(v: Variables, name: char, t: Seq<char>) -> bool {
    exists|i: int|
        0 <= i < v.list@.len() && (#[trigger] v.list@[i]).0 != name && (opt_text(
            v.list@[i].1.alias_true,
        ) == Some(t) || opt_text(v.list@[i].1.alias_false) == Some(t))
}

fn alias_taken_exec(variables: &Variables, name: char, t: &String) -> (r: bool)
    ensures
        r == alias_taken(*variables, name, t@),
{
    let mut i: usize = 0;
    while i < variables.list.len()
        invariant
            i <= variables.list@.len(),
            forall|j: int|
                0 <= j < i ==> !((#[trigger] variables.list@[j]).0 != name && (opt_text(
                    variables.list@[j].1.alias_true,
                ) == Some(t@) || opt_text(variables.list@[j].1.alias_false) == Some(t@))),
        decreases variables.list@.len() - i,
    {
        let entry = &variables.list[i];
        if entry.0 != name {
            let hit_true = match &entry.1.alias_true {
                Some(a) => str_eq(a.as_str(), t.as_str()),
                None => false,
            };
            let hit_false = match &entry.1.alias_false {
                Some(a) => str_eq(a.as_str(), t.as_str()),
                None => false,
            };
            if hit_true || hit_false {
                return true;
            }
        }
        i = i + 1;
    }
    false
}

/// The field-for-field copy that one line is parsed against.
pub open spec fn store_copy(v1: Variables, v2: Variables) -> bool {
    &&& v2.list@.len() == v1.list@.len()
    &&& forall|i: int|
        #![trigger v2.list@[i]]
        0 <= i < v1.list@.len() ==> {
            let a = v1.list@[i];
            let b = v2.list@[i];
            &&& b.0 == a.0
            &&& b.1.value == a.1.value
            &&& b.1.locked == a.1.locked
            &&& b.1.requested == a.1.requested
            &&& b.1.alias_true == a.1.alias_true
            &&& b.1.alias_false == a.1.alias_false
            &&& b.1.rules@ == a.1.rules@
        }
}

/// The effect of an accepted fact-definition line: the named fact exists
/// with exactly the given aliases; every other fact is untouched; a fresh
/// fact starts bare.
pub open spec fn def_var_applied(v1: Variables, v2: Variables, cs: Seq<Seq<char>>) -> bool {
    let name = cs[0][0];
    let at: Option<Seq<char>> = if cs.len() >= 2 {
        Some(cs[1])
    } else {
        None
    };
    let af: Option<Seq<char>> = if cs.len() == 3 {
        Some(cs[2])
    } else {
        None
    };
    &&& v2.contains(name)
    &&& opt_text(v2.spec_get(name).alias_true) == at
    &&& opt_text(v2.spec_get(name).alias_false) == af
    &&& forall|d: char|
        d != name && v1.contains(d) ==> v2.contains(d) && #[trigger] v2.spec_get(d)
            == v1.spec_get(d)
    &&& (v1.contains(name) ==> {
        let nv = v2.spec_get(name);
        &&& v2.keys() == v1.keys()
        &&& nv == (Variable {
            alias_true: nv.alias_true,
            alias_false: nv.alias_false,
            ..v1.spec_get(name)
        })
    })
    &&& (!v1.contains(name) ==> {
        let nv = v2.spec_get(name);
        &&& v2.list@.len() == v1.list@.len() + 1
        &&& nv.value == false
        &&& nv.locked == false
        &&& nv.requested == false
        &&& nv.rules@ == Seq::<Rule>::empty()
    })
}

/// What a valid alias must satisfy: not a reserved word, not another fact's
/// alias, and at least two characters long.
pub open spec fn alias_ok(v: Variables, name: char, t: Seq<char>) -> bool {
    !is_reserved_word(t) && !alias_taken(v, name, t) && t.len() >= 2
}

/// What a fact-definition line must satisfy: a single-letter fact name and
/// up to two valid, distinct aliases.
pub open spec fn def_var_ok(v: Variables, chunks: Seq<Seq<char>>) -> bool {
    &&& 1 <= chunks.len() <= 3
    &&& chunks[0].len() == 1 && is_alpha(chunks[0][0])
    &&& (chunks.len() >= 2 ==> alias_ok(v, chunks[0][0], chunks[1]))
    &&& (chunks.len() == 3 ==> alias_ok(v, chunks[0][0], chunks[2]) && chunks[2] != chunks[1])
}

/// Defines a fact and its display aliases, or replaces the aliases of a
/// known fact.  Admitted exactly when `def_var_ok` holds; a rejected line
/// changes nothing.
#[verifier::loop_isolation(false)]
pub fn def_var(chunks: &Vec<String>, variables: &mut Variables) -> (r: Result<(), String>)
    requires
        crate::algo::kb_inv(*old(variables)),
    ensures
        crate::algo::kb_inv(*final(variables)),
        r is Ok <==> def_var_ok(*old(variables), strs_view(chunks@)),
        r is Err ==> *final(variables) == *old(variables),
        forall|d: char| #[trigger] old(variables).contains(d) ==> final(variables).contains(d),
        r is Ok ==> def_var_applied(*old(variables), *final(variables), strs_view(chunks@)),
{
    if chunks.len() == 0 {
        return Err(String::from_str("def line expect variable"));
    }
    if chunks.len() > 3 {
        let mut e = chunks[3].clone();
        e.append(" is unexpected in def line");
        proof {
            assert(!(strs_view(chunks@).len() <= 3));
        }
        return Err(e);
    }
    let name_s = &chunks[0];
    if name_s.as_str().unicode_len() != 1 {
        let mut e = name_s.clone();
        e.append(" is not a valid variable name");
        return Err(e);
    }
    let name = name_s.as_str().get_char(0);
    if !is_alpha_exec(name) {
        let mut e = name_s.clone();
        e.append(" is not a valid variable name");
        return Err(e);
    }
    proof {
        assert(strs_view(chunks@)[0] == chunks@[0]@);
    }
    let mut alias_true: Option<String> = None;
    let mut alias_false: Option<String> = None;
    if chunks.len() >= 2 {
        let a = &chunks[1];
        if is_reserved_exec(a.as_str()) {
            let mut e = a.clone();
            e.append(" is a reserved word");
            return Err(e);
        }
        if alias_taken_exec(variables, name, a) {
            let mut e = a.clone();
            e.append(" is already an alias");
            return Err(e);
        }
        if a.as_str().unicode_len() < 2 {
            let mut e = a.clone();
            e.append(" is too short to be an alias");
            return Err(e);
        }
        alias_true = Some(a.clone());
    }
    if chunks.len() == 3 {
        let a = &chunks[2];
        if is_reserved_exec(a.as_str()) {
            let mut e = a.clone();
            e.append(" is a reserved word");
            return Err(e);
        }
        if alias_taken_exec(variables, name, a) {
            let mut e = a.clone();
            e.append(" is already an alias");
            return Err(e);
        }
        if str_eq(a.as_str(), chunks[1].as_str()) {
            let mut e = a.clone();
            e.append(" is already the true alias");
            return Err(e);
        }
        if a.as_str().unicode_len() < 2 {
            let mut e = a.clone();
            e.append(" is too short to be an alias");
            return Err(e);
        }
        alias_false = Some(a.clone());
    }
    let ghost at_text = opt_text(alias_true);
    let ghost af_text = opt_text(alias_false);
    let ghost v0 = *variables;
    let known = variables.find_index(name);
    if known.is_some() {
        let _ = variables.set_aliases(name, alias_true, alias_false);
        proof {
            crate::kb::lemma_key_semantics(v0);
            assert(variables.list@.len() == v0.list@.len());
            lemma_inv_rules_preserved(v0, *variables);
        }
    } else {
        let var = Variable {
            value: false,
            locked: false,
            requested: false,
            alias_true,
            alias_false,
            rules: Vec::new(),
        };
        variables.insert_new(name, var);
        proof {
            lemma_inv_insert(v0, *variables, name, variables.spec_get(name));
        }
    }
    Ok(())
}

} // verus!

verus! {

/// The first fact, in store order, whose true-alias is the given text.
pub open spec fn first_alias_true(s: Seq<(char, Variable)>, t: Seq<char>) -> Option<char>
    decreases s.len(),
{
    if s.len() == 0 {
        None
    } else if opt_text(s[0].1.alias_true) == Some(t) {
        Some(s[0].0)
    } else {
        first_alias_true(s.drop_first(), t)
    }
}

/// The first fact, in store order, whose false-alias is the given text.
pub open spec fn first_alias_false(s: Seq<(char, Variable)>, t: Seq<char>) -> Option<char>
    decreases s.len(),
{
    if s.len() == 0 {
        None
    } else if opt_text(s[0].1.alias_false) == Some(t) {
        Some(s[0].0)
    } else {
        first_alias_false(s.drop_first(), t)
    }
}

/// Alias search does not see changes that keep every alias in place and add
/// only alias-less facts.
proof fn lemma_alias_search_stable(
    s1: Seq<(char, Variable)>,
    s2: Seq<(char, Variable)>,
    t: Seq<char>,
)
    requires
        s1.len() <= s2.len(),
        forall|i: int|
            0 <= i < s1.len() ==> (#[trigger] s2[i]).0 == s1[i].0 && opt_text(s2[i].1.alias_true)
                == opt_text(s1[i].1.alias_true) && opt_text(s2[i].1.alias_false) == opt_text(
                s1[i].1.alias_false,
            ),
        forall|i: int|
            s1.len() <= i < s2.len() ==> (#[trigger] s2[i]).1.alias_true is None
                && s2[i].1.alias_false is None,
    ensures
        first_alias_true(s2, t) == first_alias_true(s1, t),
        first_alias_false(s2, t) == first_alias_false(s1, t),
    decreases s2.len(),
{
    if s1.len() == 0 {
        if s2.len() > 0 {
            assert(s2[0].1.alias_true is None && s2[0].1.alias_false is None);
            let r2 = s2.drop_first();
            assert(forall|i: int|
                0 <= i < r2.len() ==> (#[trigger] r2[i]).1.alias_true is None
                    && r2[i].1.alias_false is None);
            lemma_alias_search_stable(s1, r2, t);
        }
    } else {
        assert(s2[0].0 == s1[0].0 && opt_text(s2[0].1.alias_true) == opt_text(s1[0].1.alias_true)
            && opt_text(s2[0].1.alias_false) == opt_text(s1[0].1.alias_false));
        let r1 = s1.drop_first();
        let r2 = s2.drop_first();
        assert(forall|i: int|
            0 <= i < r1.len() ==> (#[trigger] r2[i]).0 == r1[i].0 && opt_text(r2[i].1.alias_true)
                == opt_text(r1[i].1.alias_true) && opt_text(r2[i].1.alias_false) == opt_text(
                r1[i].1.alias_false,
            ));
        assert(forall|i: int|
            r1.len() <= i < r2.len() ==> (#[trigger] r2[i]).1.alias_true is None
                && r2[i].1.alias_false is None);
        lemma_alias_search_stable(r1, r2, t);
    }
}

/// Finds the first fact whose true-alias is this text.
fn find_by_alias_true(variables: &Variables, t: &String) -> (r: Option<char>)
    requires
        variables.wf(),
    ensures
        r == first_alias_true(variables.list@, t@),
        r matches Some(k) ==> variables.contains(k),
{
    let mut i: usize = 0;
    proof {
        assert(variables.list@.skip(0) =~= variables.list@);
    }
    while i < variables.list.len()
        invariant
            i <= variables.list@.len(),
            first_alias_true(variables.list@, t@) == first_alias_true(
                variables.list@.skip(i as int),
                t@,
            ),
        decreases variables.list@.len() - i,
    {
        let entry = &variables.list[i];
        proof {
            assert(variables.list@.skip(i as int)[0] == variables.list@[i as int]);
            assert(variables.list@.skip(i as int).drop_first() =~= variables.list@.skip(
                i as int + 1,
            ));
        }
        let hit = match &entry.1.alias_true {
            Some(a) => str_eq(a.as_str(), t.as_str()),
            None => false,
        };
        if hit {
            proof {
                assert(variables.contains(entry.0)) by {
                    assert(variables.list@[i as int].0 == entry.0);
                }
            }
            return Some(entry.0);
        }
        i = i + 1;
    }
    proof {
        assert(variables.list@.skip(variables.list@.len() as int) =~= Seq::<
            (char, Variable),
        >::empty());
    }
    None
}

/// What resolution-irrelevant state `user_set` keeps: rules, requested
/// marks and aliases of every already-known fact.
pub open spec fn cosmetic_preserved(v1: Variables, v2: Variables) -> bool {
    &&& forall|c: char| #[trigger] v1.contains(c) ==> v2.contains(c)
    &&& forall|c: char|
        #[trigger] v1.contains(c) ==> {
            let a = v1.spec_get(c);
            let b = v2.spec_get(c);
            &&& b.rules@ == a.rules@
            &&& b.requested == a.requested
            &&& b.alias_true == a.alias_true
            &&& b.alias_false == a.alias_false
        }
}

/// The part of the store that alias search reads is framed: the original
/// entries keep their names and alias texts in place, and every added fact
/// is alias-less.
pub open spec fn alias_frame(v0: Variables, v2: Variables) -> bool {
    &&& v0.list@.len() <= v2.list@.len()
    &&& forall|n: int|
        0 <= n < v0.list@.len() ==> {
            let a = v0.list@[n];
            let b = #[trigger] v2.list@[n];
            &&& b.0 == a.0
            &&& opt_text(b.1.alias_true) == opt_text(a.1.alias_true)
            &&& opt_text(b.1.alias_false) == opt_text(a.1.alias_false)
        }
    &&& forall|n: int|
        v0.list@.len() <= n < v2.list@.len() ==> (#[trigger] v2.list@[n]).1.alias_true is None
            && v2.list@[n].1.alias_false is None
}

/// What one set-line chunk demands of the final store: the first fact whose
/// true-alias is the chunk is true and locked, or, when no fact carries
/// that alias, every letter of the chunk names a known fact that is true
/// and locked.
pub open spec fn chunk_set_done(v0: Variables, t: Seq<char>, v2: Variables) -> bool {
    match first_alias_true(v0.list@, t) {
        Some(k) => v2.contains(k) && v2.spec_get(k).value && v2.spec_get(k).locked,
        None => forall|j: int|
            0 <= j < t.len() ==> v2.contains(#[trigger] t[j]) && v2.spec_get(t[j]).value
                && v2.spec_get(t[j]).locked,
    }
}

/// A chunk's demand survives changes that keep facts and never unlock or
/// flip a fact that is already true and locked.
proof fn lemma_set_done_monotone(v0: Variables, t: Seq<char>, v1: Variables, v2: Variables)
    requires
        chunk_set_done(v0, t, v1),
        forall|d: char| #[trigger] v1.contains(d) ==> v2.contains(d),
        forall|d: char|
            #![trigger v2.spec_get(d)]
            v1.contains(d) && v1.spec_get(d).value && v1.spec_get(d).locked ==> v2.spec_get(
                d,
            ).value && v2.spec_get(d).locked,
    ensures
        chunk_set_done(v0, t, v2),
{
}

/// Sets facts to true and locks them: each chunk names a fact by its
/// true-alias, or letter by letter; an unknown letter is created already
/// true and locked.  Only fact values and locks change, and on success
/// every named fact ends true and locked.
#[verifier::loop_isolation(false)]
pub fn user_set(chunks: &Vec<String>, variables: &mut Variables) -> (r: Result<(), String>)
    requires
        crate::algo::kb_inv(*old(variables)),
    ensures
        crate::algo::kb_inv(*final(variables)),
        cosmetic_preserved(*old(variables), *final(variables)),
        (forall|i: int, j: int|
            #![trigger chunks@[i]@[j]]
            0 <= i < chunks@.len() && 0 <= j < chunks@[i]@.len() ==> is_alpha(chunks@[i]@[j]))
            ==> r is Ok,
        r is Ok ==> forall|i: int|
            0 <= i < chunks@.len() ==> chunk_set_done(
                *old(variables),
                (#[trigger] chunks@[i])@,
                *final(variables),
            ),
{
    let ghost v0 = *variables;
    let ghost all_alpha = forall|i: int, j: int|
        #![trigger chunks@[i]@[j]]
        0 <= i < chunks@.len() && 0 <= j < chunks@[i]@.len() ==> is_alpha(chunks@[i]@[j]);
    let mut i: usize = 0;
    while i < chunks.len()
        invariant
            i <= chunks@.len(),
            crate::algo::kb_inv(*variables),
            cosmetic_preserved(v0, *variables),
            alias_frame(v0, *variables),
            forall|i2: int|
                0 <= i2 < i ==> chunk_set_done(v0, (#[trigger] chunks@[i2])@, *variables),
        decreases chunks@.len() - i,
    {
        let chunk = &chunks[i];
        match find_by_alias_true(variables, chunk) {
            Some(k) => {
                let ghost vs = *variables;
                let _ = variables.set_value_locked(k, true, true);
                proof {
                    crate::kb::lemma_key_semantics(vs);
                    lemma_inv_rules_preserved(vs, *variables);
                    lemma_alias_search_stable(v0.list@, vs.list@, chunk@);
                    assert(first_alias_true(v0.list@, chunk@) == Some(k));
                    assert(alias_frame(v0, *variables)) by {
                        assert(vs.spec_get(k) == vs.list@[vs.key_at(k)].1);
                    }
                    assert forall|i2: int| 0 <= i2 < i implies chunk_set_done(
                        v0,
                        (#[trigger] chunks@[i2])@,
                        *variables,
                    ) by {
                        lemma_set_done_monotone(v0, chunks@[i2]@, vs, *variables);
                    }
                    assert(chunk_set_done(v0, chunks@[i as int]@, *variables));
                }
            },
            None => {
                proof {
                    lemma_alias_search_stable(v0.list@, variables.list@, chunk@);
                    assert(first_alias_true(v0.list@, chunk@) is None);
                }
                let m = chunk.as_str().unicode_len();
                let mut j: usize = 0;
                while j < m
                    invariant
                        j <= m,
                        m == chunk@.len(),
                        crate::algo::kb_inv(*variables),
                        cosmetic_preserved(v0, *variables),
                        alias_frame(v0, *variables),
                        forall|i2: int|
                            0 <= i2 < i ==> chunk_set_done(
                                v0,
                                (#[trigger] chunks@[i2])@,
                                *variables,
                            ),
                        forall|j2: int|
                            0 <= j2 < j ==> variables.contains(#[trigger] chunk@[j2])
                                && variables.spec_get(chunk@[j2]).value && variables.spec_get(
                                chunk@[j2],
                            ).locked,
                    decreases m - j,
                {
                    let c = chunk.as_str().get_char(j);
                    let ghost vs = *variables;
                    if variables.find_index(c).is_some() {
                        let _ = variables.set_value_locked(c, true, true);
                        proof {
                            crate::kb::lemma_key_semantics(vs);
                            lemma_inv_rules_preserved(vs, *variables);
                            assert(alias_frame(v0, *variables)) by {
                                assert(vs.spec_get(c) == vs.list@[vs.key_at(c)].1);
                            }
                            assert forall|i2: int| 0 <= i2 < i implies chunk_set_done(
                                v0,
                                (#[trigger] chunks@[i2])@,
                                *variables,
                            ) by {
                                lemma_set_done_monotone(v0, chunks@[i2]@, vs, *variables);
                            }
                        }
                    } else if is_alpha_exec(c) {
                        variables.insert_new(c, Variable::insert());
                        proof {
                            lemma_inv_insert(vs, *variables, c, variables.spec_get(c));
                            assert forall|i2: int| 0 <= i2 < i implies chunk_set_done(
                                v0,
                                (#[trigger] chunks@[i2])@,
                                *variables,
                            ) by {
                                lemma_set_done_monotone(v0, chunks@[i2]@, vs, *variables);
                            }
                        }
                    } else {
                        let mut e = crate::utils::char_to_string(c);
                        e.append(" is an invalid variable name");
                        proof {
                            assert(c == chunks@[i as int]@[j as int]);
                            assert(!all_alpha);
                        }
                        return Err(e);
                    }
                    j = j + 1;
                }
                proof {
                    assert(chunk_set_done(v0, chunks@[i as int]@, *variables));
                }
            },
        }
        i = i + 1;
    }
    Ok(())
}

/// What `requests` keeps: everything but the requested marks.
pub open spec fn request_preserved(v1: Variables, v2: Variables) -> bool {
    &&& forall|c: char| #[trigger] v1.contains(c) ==> v2.contains(c)
    &&& forall|c: char|
        #[trigger] v1.contains(c) ==> {
            let a = v1.spec_get(c);
            let b = v2.spec_get(c);
            &&& b.rules@ == a.rules@
            &&& b.value == a.value
            &&& b.locked == a.locked
            &&& b.alias_true == a.alias_true
            &&& b.alias_false == a.alias_false
        }
}

/// What one request-line chunk demands of the final store: the first fact
/// whose true-alias is the chunk is requested, or, when no fact carries
/// that alias, every letter of the chunk names a known, requested fact.
pub open spec fn chunk_req_done(v0: Variables, t: Seq<char>, v2: Variables) -> bool {
    match first_alias_true(v0.list@, t) {
        Some(k) => v2.contains(k) && v2.spec_get(k).requested,
        None => forall|j: int|
            0 <= j < t.len() ==> v2.contains(#[trigger] t[j]) && v2.spec_get(t[j]).requested,
    }
}

/// A chunk's request demand survives changes that keep facts and never
/// clear a requested mark.
proof fn lemma_req_done_monotone(v0: Variables, t: Seq<char>, v1: Variables, v2: Variables)
    requires
        chunk_req_done(v0, t, v1),
        forall|d: char| #[trigger] v1.contains(d) ==> v2.contains(d),
        forall|d: char|
            #![trigger v2.spec_get(d)]
            v1.contains(d) && v1.spec_get(d).requested ==> v2.spec_get(d).requested,
    ensures
        chunk_req_done(v0, t, v2),
{
}

/// Marks facts as requested for batch querying: each chunk names a fact by
/// its true-alias, or letter by letter; an unknown letter is created already
/// requested.  Only requested marks change, and on success every named fact
/// ends requested.
#[verifier::loop_isolation(false)]
pub fn requests(chunks: &Vec<String>, variables: &mut Variables) -> (r: Result<(), String>)
    requires
        crate::algo::kb_inv(*old(variables)),
    ensures
        crate::algo::kb_inv(*final(variables)),
        request_preserved(*old(variables), *final(variables)),
        (forall|i: int, j: int|
            #![trigger chunks@[i]@[j]]
            0 <= i < chunks@.len() && 0 <= j < chunks@[i]@.len() ==> is_alpha(chunks@[i]@[j]))
            ==> r is Ok,
        r is Ok ==> forall|i: int|
            0 <= i < chunks@.len() ==> chunk_req_done(
                *old(variables),
                (#[trigger] chunks@[i])@,
                *final(variables),
            ),
{
    let ghost v0 = *variables;
    let ghost all_alpha = forall|i: int, j: int|
        #![trigger chunks@[i]@[j]]
        0 <= i < chunks@.len() && 0 <= j < chunks@[i]@.len() ==> is_alpha(chunks@[i]@[j]);
    let mut i: usize = 0;
    while i < chunks.len()
        invariant
            i <= chunks@.len(),
            crate::algo::kb_inv(*variables),
            request_preserved(v0, *variables),
            alias_frame(v0, *variables),
            forall|i2: int|
                0 <= i2 < i ==> chunk_req_done(v0, (#[trigger] chunks@[i2])@, *variables),
        decreases chunks@.len() - i,
    {
        let chunk = &chunks[i];
        match find_by_alias_true(variables, chunk) {
            Some(k) => {
                let ghost vs = *variables;
                let _ = variables.set_requested(k, true);
                proof {
                    crate::kb::lemma_key_semantics(vs);
                    lemma_inv_rules_preserved(vs, *variables);
                    lemma_alias_search_stable(v0.list@, vs.list@, chunk@);
                    assert(first_alias_true(v0.list@, chunk@) == Some(k));
                    assert(alias_frame(v0, *variables)) by {
                        assert(vs.spec_get(k) == vs.list@[vs.key_at(k)].1);
                    }
                    assert forall|i2: int| 0 <= i2 < i implies chunk_req_done(
                        v0,
                        (#[trigger] chunks@[i2])@,
                        *variables,
                    ) by {
                        lemma_req_done_monotone(v0, chunks@[i2]@, vs, *variables);
                    }
                    assert(chunk_req_done(v0, chunks@[i as int]@, *variables));
                }
            },
            None => {
                proof {
                    lemma_alias_search_stable(v0.list@, variables.list@, chunk@);
                    assert(first_alias_true(v0.list@, chunk@) is None);
                }
                let m = chunk.as_str().unicode_len();
                let mut j: usize = 0;
                while j < m
                    invariant
                        j <= m,
                        m == chunk@.len(),
                        crate::algo::kb_inv(*variables),
                        request_preserved(v0, *variables),
                        alias_frame(v0, *variables),
                        forall|i2: int|
                            0 <= i2 < i ==> chunk_req_done(
                                v0,
                                (#[trigger] chunks@[i2])@,
                                *variables,
                            ),
                        forall|j2: int|
                            0 <= j2 < j ==> variables.contains(#[trigger] chunk@[j2])
                                && variables.spec_get(chunk@[j2]).requested,
                    decreases m - j,
                {
                    let c = chunk.as_str().get_char(j);
                    let ghost vs = *variables;
                    if variables.find_index(c).is_some() {
                        let _ = variables.set_requested(c, true);
                        proof {
                            crate::kb::lemma_key_semantics(vs);
                            lemma_inv_rules_preserved(vs, *variables);
                            assert(alias_frame(v0, *variables)) by {
                                assert(vs.spec_get(c) == vs.list@[vs.key_at(c)].1);
                            }
                            assert forall|i2: int| 0 <= i2 < i implies chunk_req_done(
                                v0,
                                (#[trigger] chunks@[i2])@,
                                *variables,
                            ) by {
                                lemma_req_done_monotone(v0, chunks@[i2]@, vs, *variables);
                            }
                        }
                    } else if is_alpha_exec(c) {
                        variables.insert_new(c, Variable::request());
                        proof {
                            lemma_inv_insert(vs, *variables, c, variables.spec_get(c));
                            assert forall|i2: int| 0 <= i2 < i implies chunk_req_done(
                                v0,
                                (#[trigger] chunks@[i2])@,
                                *variables,
                            ) by {
                                lemma_req_done_monotone(v0, chunks@[i2]@, vs, *variables);
                            }
                        }
                    } else {
                        let mut e = crate::utils::char_to_string(c);
                        e.append(" is not a valid variable name");
                        proof {
                            assert(c == chunks@[i as int]@[j as int]);
                            assert(!all_alpha);
                        }
                        return Err(e);
                    }
                    j = j + 1;
                }
                proof {
                    assert(chunk_req_done(v0, chunks@[i as int]@, *variables));
                }
            },
        }
        i = i + 1;
    }
    Ok(())
}

} // verus!

verus! {

/// Membership in a sequence extended by one element.
proof fn lemma_contains_push(s: Seq<Operator>, e: Operator, x: Operator)
    ensures
        s.push(e).contains(x) == (s.contains(x) || x == e),
{
    if s.contains(x) {
        let i = choose|i: int| 0 <= i < s.len() && s[i] == x;
        assert(s.push(e)[i] == x);
    }
    if x == e {
        assert(s.push(e)[s.len() as int] == x);
    }
    if s.push(e).contains(x) {
        let i = choose|i: int| 0 <= i < s.push(e).len() && s.push(e)[i] == x;
        if i < s.len() {
            assert(s[i] == x);
        }
    }
}

/// Popping to a parenthesis only moves tokens already present.
proof fn lemma_pop_close_elements(output: Seq<Operator>, stack: Seq<Operator>, x: Operator)
    requires
        rpn_pop_close(output, stack) is Ok,
        rpn_pop_close(output, stack)->Ok_0.0.contains(x) || rpn_pop_close(
            output,
            stack,
        )->Ok_0.1.contains(x),
    ensures
        output.contains(x) || stack.contains(x),
    decreases stack.len(),
{
    if stack.len() == 0 {
    } else if stack.last() == Operator::Parentesis(true) {
        if rpn_pop_close(output, stack)->Ok_0.1.contains(x) {
            let i = choose|i: int|
                0 <= i < stack.drop_last().len() && stack.drop_last()[i] == x;
            assert(stack[i] == x);
        }
    } else {
        lemma_pop_close_elements(output.push(stack.last()), stack.drop_last(), x);
        lemma_contains_push(output, stack.last(), x);
        if stack.drop_last().contains(x) {
            let i = choose|i: int|
                0 <= i < stack.drop_last().len() && stack.drop_last()[i] == x;
            assert(stack[i] == x);
        }
        if x == stack.last() {
            assert(stack.contains(x));
        }
    }
}

/// Flushing the stack only moves tokens already present.
proof fn lemma_flush_elements(output: Seq<Operator>, stack: Seq<Operator>, x: Operator)
    requires
        rpn_flush(output, stack) is Ok,
        rpn_flush(output, stack)->Ok_0.contains(x),
    ensures
        output.contains(x) || stack.contains(x),
    decreases stack.len(),
{
    if stack.len() == 0 {
    } else if stack.last() == Operator::Parentesis(true) {
    } else {
        lemma_flush_elements(output.push(stack.last()), stack.drop_last(), x);
        lemma_contains_push(output, stack.last(), x);
        if stack.drop_last().contains(x) {
            let i = choose|i: int|
                0 <= i < stack.drop_last().len() && stack.drop_last()[i] == x;
            assert(stack[i] == x);
        }
        if x == stack.last() {
            assert(stack.contains(x));
        }
    }
}

/// Precedence popping only moves tokens already present.
proof fn lemma_pop_prec_elements(
    output: Seq<Operator>,
    stack: Seq<Operator>,
    op: Operator,
    x: Operator,
)
    requires
        rpn_pop_prec(output, stack, op).0.contains(x) || rpn_pop_prec(
            output,
            stack,
            op,
        ).1.contains(x),
    ensures
        output.contains(x) || stack.contains(x),
    decreases stack.len(),
{
    if stack.len() == 0 {
    } else if crate::models::is_connective(stack.last()) && crate::models::priority(stack.last())
        >= crate::models::priority(op) {
        lemma_pop_prec_elements(output.push(stack.last()), stack.drop_last(), op, x);
        lemma_contains_push(output, stack.last(), x);
        if stack.drop_last().contains(x) {
            let i = choose|i: int|
                0 <= i < stack.drop_last().len() && stack.drop_last()[i] == x;
            assert(stack[i] == x);
        }
        if x == stack.last() {
            assert(stack.contains(x));
        }
    }
}

/// The reduction introduces no token of its own.
proof fn lemma_rpn_steps_elements(
    input: Seq<Operator>,
    output: Seq<Operator>,
    stack: Seq<Operator>,
    x: Operator,
)
    requires
        rpn_steps(input, output, stack) is Ok,
        rpn_steps(input, output, stack)->Ok_0.0.contains(x) || rpn_steps(
            input,
            output,
            stack,
        )->Ok_0.1.contains(x),
    ensures
        input.contains(x) || output.contains(x) || stack.contains(x),
    decreases input.len(),
{
    if input.len() == 0 {
    } else {
        let op = input[0];
        let rest = input.drop_first();
        assert(input[0] == op);
        match op {
            Operator::Var(_) => {
                lemma_rpn_steps_elements(rest, output.push(op), stack, x);
                lemma_contains_push(output, op, x);
            },
            Operator::Parentesis(false) => {
                match rpn_pop_close(output, stack) {
                    Ok(os) => {
                        lemma_rpn_steps_elements(rest, os.0, os.1, x);
                        if os.0.contains(x) || os.1.contains(x) {
                            lemma_pop_close_elements(output, stack, x);
                        }
                    },
                    Err(e) => {},
                }
            },
            Operator::Not | Operator::Parentesis(true) => {
                lemma_rpn_steps_elements(rest, output, stack.push(op), x);
                lemma_contains_push(stack, op, x);
            },
            _ => {
                match op {
                    Operator::IfAndOnlyIf | Operator::Then => {
                        match rpn_flush(output, stack) {
                            Ok(o) => {
                                lemma_rpn_steps_elements(rest, o, seq![op], x);
                                if o.contains(x) {
                                    lemma_flush_elements(output, stack, x);
                                }
                                if seq![op].contains(x) {
                                    assert(x == op);
                                }
                            },
                            Err(e) => {},
                        }
                    },
                    _ => {
                        let os = rpn_pop_prec(output, stack, op);
                        lemma_rpn_steps_elements(rest, os.0, os.1.push(op), x);
                        lemma_contains_push(os.1, op, x);
                        if os.0.contains(x) || os.1.contains(x) {
                            lemma_pop_prec_elements(output, stack, op, x);
                        }
                    },
                }
            },
        }
        if rest.contains(x) {
            let i = choose|i: int| 0 <= i < rest.len() && rest[i] == x;
            assert(input[i + 1] == x);
        }
    }
}

/// Every token of the reverse-Polish form comes from the infix input.
proof fn lemma_rpn_elements(input: Seq<Operator>, x: Operator)
    requires
        spec_rpn(input) is Ok,
        spec_rpn(input)->Ok_0.contains(x),
    ensures
        input.contains(x),
{
    let os = rpn_steps(input, Seq::empty(), Seq::empty())->Ok_0;
    lemma_flush_elements(os.0, os.1, x);
    lemma_rpn_steps_elements(input, Seq::empty(), Seq::empty(), x);
}

/// Every collected fact reference of a well-formed tree appears in its
/// postfix serialisation.
proof fn lemma_vars_in_postfix(t: BTree, x: Operator)
    requires
        t.wf(),
        t.spec_find_nodes(NodeFilter::Vars).contains(x),
    ensures
        t.postfix().contains(x),
    decreases t,
{
    let fs = t.spec_find_nodes(NodeFilter::Vars);
    let k = choose|k: int| 0 <= k < fs.len() && fs[k] == x;
    let head: Seq<Operator> = if crate::models::matches_filter(t.node, NodeFilter::Vars) {
        seq![t.node]
    } else {
        Seq::empty()
    };
    let p1: Seq<Operator> = match t.c1 {
        Some(c) => c.spec_find_nodes(NodeFilter::Vars),
        None => Seq::empty(),
    };
    let p2: Seq<Operator> = match t.c2 {
        Some(c) => c.spec_find_nodes(NodeFilter::Vars),
        None => Seq::empty(),
    };
    assert(fs == head + p1 + p2);
    if k < head.len() {
        assert(x == t.node);
        assert(t.postfix()[0] == x);
    } else if k < head.len() + p1.len() {
        assert(p1[k - head.len()] == x);
        match t.c1 {
            Some(c) => {
                lemma_vars_in_postfix(*c, x);
                let i = choose|i: int| 0 <= i < c.postfix().len() && c.postfix()[i] == x;
                assert(t.postfix()[i] == x);
            },
            None => {},
        }
    } else {
        assert(p2[k - head.len() - p1.len()] == x);
        match t.c2 {
            Some(c) => {
                lemma_vars_in_postfix(*c, x);
                let i = choose|i: int| 0 <= i < c.postfix().len() && c.postfix()[i] == x;
                match t.node {
                    Operator::Not => {
                        assert(t.postfix()[i] == x);
                    },
                    _ => {
                        let a = t.c1->Some_0;
                        assert(t.postfix()[a.postfix().len() + i] == x);
                    },
                }
            },
            None => {},
        }
    }
}

/// Decides membership in a token list.
fn ops_contains(v: &Vec<Operator>, x: Operator) -> (r: bool)
    ensures
        r == v@.contains(x),
{
    let mut i: usize = 0;
    while i < v.len()
        invariant
            i <= v@.len(),
            forall|j: int| 0 <= j < i ==> v@[j] != x,
        decreases v@.len() - i,
    {
        if v[i] == x {
            return true;
        }
        i = i + 1;
    }
    false
}

/// The message for a consequent that is not a pure conjunction of facts.
pub open spec fn bad_output_err_text() -> Seq<char> {
    "output can only handle & and variables"@
}

/// Admits a parsed rule into the knowledge base: the consequent must be a
/// conjunction of facts, no fact may stand on both sides, and the rule must
/// not contradict the registered rules.  On admission the rule is appended
/// under every fact of its consequent, once; a rejected rule changes
/// nothing.
#[verifier::loop_isolation(false)]
pub fn insert_rule(rule: &Rule, variables: &mut Variables) -> (r: Result<(), String>)
    requires
        crate::algo::kb_inv(*old(variables)),
        rule.input.wf(),
        rule.output.wf(),
        forall|k: int|
            0 <= k < crate::algo::rule_vars(*rule).len() ==> old(variables).contains(
                (#[trigger] crate::algo::rule_vars(*rule)[k])->Var_0,
            ),
    ensures
        crate::algo::kb_inv(*final(variables)),
        r is Err ==> *final(variables) == *old(variables),
        rule.output.spec_find_nodes(NodeFilter::NonConjunctive).len() > 0 ==> r is Err
            && r->Err_0@ == bad_output_err_text(),
        r matches Err(e) && e@ == bad_output_err_text() ==> rule.output.spec_find_nodes(
            NodeFilter::NonConjunctive,
        ).len() > 0,
        r matches Err(e) ==> e@ == bad_output_err_text() || e@ == arity_err_text() || e@
            == contradiction_err_text(*rule) || (exists|op: Operator|
            #![trigger spec_symbol(op)]
            rule.input.spec_find_nodes(NodeFilter::Vars).contains(op)
                && rule.output.spec_find_nodes(NodeFilter::Vars).contains(op) && e@ == spec_symbol(
                op,
            ) + " is both in input and output"@),
        ((rule.output.spec_find_nodes(NodeFilter::NonConjunctive).len() == 0) && (forall|
            op: Operator,
        |
            rule.input.spec_find_nodes(NodeFilter::Vars).contains(op)
                ==> !rule.output.spec_find_nodes(NodeFilter::Vars).contains(op)) && (forall|
            d: char,
        |
            #[trigger] old(variables).contains(d) ==> fact_tables_ok(*old(variables), *rule, d))
            && !conflicting_walk(*old(variables), *rule)) ==> r is Ok,
        r is Ok ==> rule.shape_ok(),
        r is Ok ==> ({
            &&& final(variables).keys() == old(variables).keys()
            &&& forall|c: char| #[trigger] final(variables).contains(c) == old(variables).contains(c)
            &&& forall|c: char|
                #[trigger] old(variables).contains(c) ==> {
                    let a = old(variables).spec_get(c);
                    let b = final(variables).spec_get(c);
                    &&& b.value == a.value
                    &&& b.locked == a.locked
                    &&& b.requested == a.requested
                    &&& b.alias_true == a.alias_true
                    &&& b.alias_false == a.alias_false
                    &&& b.rules@ == if rule.output.spec_find_nodes(NodeFilter::Vars).contains(
                        Operator::Var(c),
                    ) && !has_rule_text(a.rules@, rule.formula_string@) {
                        a.rules@.push(*rule)
                    } else {
                        a.rules@
                    }
                }
        }),
{
    let bad = rule.output.find_nodes(NodeFilter::NonConjunctive);
    if bad.len() > 0 {
        return Err(String::from_str("output can only handle & and variables"));
    }
    let outv = rule.output.find_nodes(NodeFilter::Vars);
    let input_vars = rule.input.find_nodes(NodeFilter::Vars);
    let mut i: usize = 0;
    while i < input_vars.len()
        invariant
            i <= input_vars@.len(),
            forall|j: int| 0 <= j < i ==> !outv@.contains(#[trigger] input_vars@[j]),
        decreases input_vars@.len() - i,
    {
        if ops_contains(&outv, input_vars[i]) {
            let sym = input_vars[i].symbol();
            let mut e = sym;
            e.append(" is both in input and output");
            proof {
                rule.input.lemma_find_nodes_match(NodeFilter::Vars);
                assert(input_vars@[i as int] is Var);
                assert(spec_symbol(input_vars@[i as int]).len() == 1);
                reveal_strlit(" is both in input and output");
                reveal_strlit("output can only handle & and variables");
                assert(e@.len() != bad_output_err_text().len());
                assert(rule.input.spec_find_nodes(NodeFilter::Vars).contains(
                    input_vars@[i as int],
                ));
                assert(e@ == spec_symbol(input_vars@[i as int])
                    + " is both in input and output"@);
            }
            return Err(e);
        }
        i = i + 1;
    }
    proof {
        assert(rule.shape_ok());
    }
    match check_loop(variables, rule) {
        Ok(u) => {},
        Err(e) => {
            proof {
                reveal_strlit("contradiction in rule");
                reveal_strlit("too many distinct facts in antecedent");
                reveal_strlit("output can only handle & and variables");
                assert(e@ != bad_output_err_text()) by {
                    if e@ == contradiction_err_text(*rule) {
                        assert(e@[0] != bad_output_err_text()[0]);
                    } else {
                        assert(e@.len() != bad_output_err_text().len());
                    }
                }
            }
            return Err(e);
        },
    }
    let ghost v0 = *variables;
    let ghost text = rule.formula_string@;
    let mut m: usize = 0;
    while m < outv.len()
        invariant
            m <= outv@.len(),
            outv@ == rule.output.spec_find_nodes(NodeFilter::Vars),
            crate::algo::kb_inv(*variables),
            variables.keys() == v0.keys(),
            forall|c: char| #[trigger] variables.contains(c) == v0.contains(c),
            forall|c: char|
                #[trigger] v0.contains(c) ==> {
                    let a = v0.spec_get(c);
                    let b = variables.spec_get(c);
                    &&& b.value == a.value
                    &&& b.locked == a.locked
                    &&& b.requested == a.requested
                    &&& b.alias_true == a.alias_true
                    &&& b.alias_false == a.alias_false
                    &&& b.rules@ == if outv@.take(m as int).contains(Operator::Var(c))
                        && !has_rule_text(a.rules@, text) {
                        a.rules@.push(*rule)
                    } else {
                        a.rules@
                    }
                },
        decreases outv@.len() - m,
    {
        let d = match outv[m] {
            Operator::Var(ch) => ch,
            _ => {
                proof {
                    rule.output.lemma_find_nodes_match(NodeFilter::Vars);
                    assert(false);
                }
                '/'
            },
        };
        proof {
            let iv = rule.input.spec_find_nodes(NodeFilter::Vars);
            assert(crate::algo::rule_vars(*rule)[iv.len() + m] == outv@[m as int]);
            assert(v0.contains(d));
        }
        let ghost vs = *variables;
        let _ = variables.push_rule(d, rule);
        proof {
            crate::kb::lemma_key_semantics(vs);
            lemma_inv_push_rule(vs, *variables, d, *rule);
            assert forall|c: char| #[trigger] v0.contains(c) implies {
                let a = v0.spec_get(c);
                let b = variables.spec_get(c);
                &&& b.value == a.value
                &&& b.locked == a.locked
                &&& b.requested == a.requested
                &&& b.alias_true == a.alias_true
                &&& b.alias_false == a.alias_false
                &&& b.rules@ == if outv@.take(m as int + 1).contains(Operator::Var(c))
                    && !has_rule_text(a.rules@, text) {
                    a.rules@.push(*rule)
                } else {
                    a.rules@
                }
            } by {
                lemma_contains_push(outv@.take(m as int), outv@[m as int], Operator::Var(c));
                assert(outv@.take(m as int + 1) =~= outv@.take(m as int).push(outv@[m as int]));
                let a = v0.spec_get(c);
                if c == d {
                    let mid = vs.spec_get(d);
                    if outv@.take(m as int).contains(Operator::Var(d)) && !has_rule_text(
                        a.rules@,
                        text,
                    ) {
                        assert(mid.rules@ == a.rules@.push(*rule));
                        assert(mid.rules@[a.rules@.len() as int].formula_string@ == text);
                        assert(has_rule_text(mid.rules@, text));
                        assert(variables.spec_get(d).rules@ == mid.rules@);
                    } else {
                        assert(mid.rules@ == a.rules@);
                        if has_rule_text(a.rules@, text) {
                            assert(variables.spec_get(d).rules@ == mid.rules@);
                        } else {
                            assert(variables.spec_get(d).rules@ == mid.rules@.push(*rule));
                        }
                    }
                } else {
                    assert(variables.spec_get(c) == vs.spec_get(c));
                }
            }
        }
        m = m + 1;
    }
    proof {
        assert(outv@.take(outv@.len() as int) =~= outv@);
    }
    Ok(())
}

} // verus!

verus! {

/// Copies the knowledge base, field by field.
pub fn clone_variables(v: &Variables) -> (r: Variables)
    ensures
        r.list@.len() == v.list@.len(),
        forall|i: int|
            #![trigger r.list@[i]]
            0 <= i < v.list@.len() ==> {
                let a = v.list@[i];
                let b = r.list@[i];
                &&& b.0 == a.0
                &&& b.1.value == a.1.value
                &&& b.1.locked == a.1.locked
                &&& b.1.requested == a.1.requested
                &&& b.1.alias_true == a.1.alias_true
                &&& b.1.alias_false == a.1.alias_false
                &&& b.1.rules@ == a.1.rules@
            },
{
    let mut list: Vec<(char, Variable)> = Vec::new();
    let mut i: usize = 0;
    while i < v.list.len()
        invariant
            i <= v.list@.len(),
            list@.len() == i,
            forall|j: int|
                #![trigger list@[j]]
                0 <= j < i ==> {
                    let a = v.list@[j];
                    let b = list@[j];
                    &&& b.0 == a.0
                    &&& b.1.value == a.1.value
                    &&& b.1.locked == a.1.locked
                    &&& b.1.requested == a.1.requested
                    &&& b.1.alias_true == a.1.alias_true
                    &&& b.1.alias_false == a.1.alias_false
                    &&& b.1.rules@ == a.1.rules@
                },
        decreases v.list@.len() - i,
    {
        let entry = &v.list[i];
        let var = entry.1.clone();
        list.push((entry.0, var));
        i = i + 1;
    }
    Variables { list }
}

/// The copy keeps the knowledge-base invariant, the same facts and, for
/// each fact, the same state.
pub proof fn lemma_clone_inv(v1: Variables, v2: Variables)
    requires
        crate::algo::kb_inv(v1),
        v2.list@.len() == v1.list@.len(),
        forall|i: int|
            #![trigger v2.list@[i]]
            0 <= i < v1.list@.len() ==> {
                let a = v1.list@[i];
                let b = v2.list@[i];
                &&& b.0 == a.0
                &&& b.1.value == a.1.value
                &&& b.1.locked == a.1.locked
                &&& b.1.requested == a.1.requested
                &&& b.1.alias_true == a.1.alias_true
                &&& b.1.alias_false == a.1.alias_false
                &&& b.1.rules@ == a.1.rules@
            },
    ensures
        crate::algo::kb_inv(v2),
        forall|c: char| #[trigger] v2.contains(c) == v1.contains(c),
        forall|c: char|
            #[trigger] v1.contains(c) ==> {
                let a = v1.spec_get(c);
                let b = v2.spec_get(c);
                &&& b.value == a.value
                &&& b.locked == a.locked
                &&& b.requested == a.requested
                &&& b.alias_true == a.alias_true
                &&& b.alias_false == a.alias_false
                &&& b.rules@ == a.rules@
            },
{
    assert forall|i: int, j: int| 0 <= i < j < v2.list@.len() implies (#[trigger] v2.list@[i]).0
        != (#[trigger] v2.list@[j]).0 by {
        assert(v1.list@[i].0 != v1.list@[j].0);
    }
    assert forall|c: char| #[trigger] v2.contains(c) == v1.contains(c) by {
        if v1.contains(c) {
            let k = v1.key_at(c);
            assert(v2.list@[k].0 == c);
        }
        if v2.contains(c) {
            let k = v2.key_at(c);
            assert(v1.list@[k].0 == c);
        }
    }
    lemma_inv_rules_preserved(v1, v2);
    crate::kb::lemma_key_semantics(v1);
    crate::kb::lemma_key_semantics(v2);
    assert forall|c: char| #[trigger] v1.contains(c) implies {
        let a = v1.spec_get(c);
        let b = v2.spec_get(c);
        &&& b.value == a.value
        &&& b.locked == a.locked
        &&& b.requested == a.requested
        &&& b.alias_true == a.alias_true
        &&& b.alias_false == a.alias_false
        &&& b.rules@ == a.rules@
    } by {
        let k = v1.key_at(c);
        assert(v2.list@[k].0 == c);
        assert(v2.key_at(c) == k);
    }
}

/// Copies the tail of a chunk list.
fn tail_strings(v: &Vec<String>, from: usize) -> (r: Vec<String>)
    requires
        from <= v@.len(),
    ensures
        r@ == v@.skip(from as int),
{
    let mut r: Vec<String> = Vec::new();
    let mut i: usize = from;
    proof {
        assert(r@ =~= v@.skip(from as int).take(0));
    }
    while i < v.len()
        invariant
            from <= i <= v@.len(),
            r@ == v@.skip(from as int).take(i - from),
        decreases v@.len() - i,
    {
        let item = v[i].clone();
        r.push(item);
        proof {
            assert(v@.skip(from as int).take(i - from).push(v@[i as int]) =~= v@.skip(
                from as int,
            ).take(i + 1 - from));
        }
        i = i + 1;
    }
    proof {
        assert(v@.skip(from as int).take(v@.len() - from) =~= v@.skip(from as int));
    }
    r
}

/// What rule registration keeps of every already-known fact: everything but
/// its rule list, which may only be extended.
pub open spec fn registration_preserved(v1: Variables, v2: Variables) -> bool {
    &&& forall|c: char| #[trigger] v1.contains(c) ==> v2.contains(c)
    &&& forall|c: char|
        #[trigger] v1.contains(c) ==> {
            let a = v1.spec_get(c);
            let b = v2.spec_get(c);
            &&& b.value == a.value
            &&& b.locked == a.locked
            &&& b.requested == a.requested
            &&& b.alias_true == a.alias_true
            &&& b.alias_false == a.alias_false
            &&& b.rules@.len() >= a.rules@.len()
            &&& b.rules@.take(a.rules@.len() as int) == a.rules@
        }
}



/// Appending one token keeps every referenced fact known.
proof fn lemma_ari_push(ar0: Seq<Operator>, ar1: Seq<Operator>, op: Operator, v: Variables)
    requires
        ar1 == ar0.push(op),
        forall|k: int|
            0 <= k < ar0.len() && (#[trigger] ar0[k]) is Var ==> v.contains(ar0[k]->Var_0),
        op is Var ==> v.contains(op->Var_0),
    ensures
        forall|k: int|
            0 <= k < ar1.len() && (#[trigger] ar1[k]) is Var ==> v.contains(ar1[k]->Var_0),
{
    assert forall|k: int| 0 <= k < ar1.len() && (#[trigger] ar1[k]) is Var implies v.contains(
        ar1[k]->Var_0,
    ) by {
        if k < ar0.len() {
            assert(ar1[k] == ar0[k]);
        } else {
            assert(ar1[k] == op);
        }
    }
}

/// A change that keeps every known fact identical preserves registration
/// state.
pub proof fn lemma_registration_step(v1: Variables, v2: Variables)
    requires
        forall|c: char|
            #[trigger] v1.contains(c) ==> v2.contains(c) && v2.spec_get(c) == v1.spec_get(c),
    ensures
        registration_preserved(v1, v2),
{
    assert forall|c: char| #[trigger] v1.contains(c) implies {
        let a = v1.spec_get(c);
        let b = v2.spec_get(c);
        &&& b.value == a.value
        &&& b.locked == a.locked
        &&& b.requested == a.requested
        &&& b.alias_true == a.alias_true
        &&& b.alias_false == a.alias_false
        &&& b.rules@.len() >= a.rules@.len()
        &&& b.rules@.take(a.rules@.len() as int) == a.rules@
    } by {
        let a = v1.spec_get(c);
        assert(a.rules@.take(a.rules@.len() as int) =~= a.rules@);
    }
}

/// A change that at most appends one rule to each fact preserves
/// registration state.
pub proof fn lemma_registration_from_rule(v1: Variables, v2: Variables, rule: Rule)
    requires
        forall|c: char| #[trigger] v2.contains(c) == v1.contains(c),
        forall|c: char|
            #[trigger] v1.contains(c) ==> {
                let a = v1.spec_get(c);
                let b = v2.spec_get(c);
                &&& b.value == a.value
                &&& b.locked == a.locked
                &&& b.requested == a.requested
                &&& b.alias_true == a.alias_true
                &&& b.alias_false == a.alias_false
                &&& (b.rules@ == a.rules@ || b.rules@ == a.rules@.push(rule))
            },
    ensures
        registration_preserved(v1, v2),
{
    assert forall|c: char| #[trigger] v1.contains(c) implies {
        let a = v1.spec_get(c);
        let b = v2.spec_get(c);
        &&& b.value == a.value
        &&& b.locked == a.locked
        &&& b.requested == a.requested
        &&& b.alias_true == a.alias_true
        &&& b.alias_false == a.alias_false
        &&& b.rules@.len() >= a.rules@.len()
        &&& b.rules@.take(a.rules@.len() as int) == a.rules@
    } by {
        let a = v1.spec_get(c);
        let b = v2.spec_get(c);
        if b.rules@ == a.rules@ {
            assert(b.rules@.take(a.rules@.len() as int) =~= a.rules@);
        } else {
            assert(b.rules@.take(a.rules@.len() as int) =~= a.rules@);
        }
    }
}

/// Registration preservation composes.
pub proof fn lemma_registration_trans(a: Variables, b: Variables, c: Variables)
    requires
        registration_preserved(a, b),
        registration_preserved(b, c),
    ensures
        registration_preserved(a, c),
{
    assert forall|d: char| #[trigger] a.contains(d) implies {
        let x = a.spec_get(d);
        let z = c.spec_get(d);
        &&& c.contains(d)
        &&& z.value == x.value
        &&& z.locked == x.locked
        &&& z.requested == x.requested
        &&& z.alias_true == x.alias_true
        &&& z.alias_false == x.alias_false
        &&& z.rules@.len() >= x.rules@.len()
        &&& z.rules@.take(x.rules@.len() as int) == x.rules@
    } by {
        let x = a.spec_get(d);
        let y = b.spec_get(d);
        let z = c.spec_get(d);
        assert(b.contains(d));
        assert(z.rules@.take(x.rules@.len() as int) =~= z.rules@.take(y.rules@.len() as int).take(
            x.rules@.len() as int,
        ));
    }
}

/// A token-collection phase only adds fresh facts: the original entries are
/// untouched and every added fact is a bare, alias-less, rule-less letter.
pub open spec fn fact_extension(v1: Variables, vt: Variables) -> bool {
    &&& v1.list@.len() <= vt.list@.len()
    &&& forall|n: int| 0 <= n < v1.list@.len() ==> (#[trigger] vt.list@[n]) == v1.list@[n]
    &&& forall|n: int|
        v1.list@.len() <= n < vt.list@.len() ==> {
            let e = #[trigger] vt.list@[n];
            &&& is_alpha(e.0)
            &&& e.1.rules@ == Seq::<Rule>::empty()
            &&& e.1.value == false
            &&& e.1.locked == false
            &&& e.1.requested == false
            &&& e.1.alias_true is None
            &&& e.1.alias_false is None
        }
}

/// A token sequence free of rule separators.
pub open spec fn sep_free(s: Seq<Operator>) -> bool {
    forall|i: int| 0 <= i < s.len() ==> !((#[trigger] s[i]) is Then) && !(s[i] is IfAndOnlyIf)
}

/// A side's tokens reduce to postfix and end in this well-formed tree.
pub open spec fn side_trees(a: Seq<Operator>, t: BTree) -> bool {
    &&& spec_rpn(a) is Ok
    &&& t.wf()
    &&& exists|rest: Seq<Operator>|
        #![trigger rest + t.postfix()]
        spec_rpn(a)->Ok_0 == rest + t.postfix()
}

/// The tokens one rule chunk can stand for: an operator spelling is its
/// operator; a single character that is a known fact or a letter is a fact
/// reference; a fact's true-alias is a reference to it; a fact's
/// false-alias is its negated reference.
#[verifier::opaque]
pub open spec fn chunk_denotes(v: Variables, t: Seq<char>, ops: Seq<Operator>) -> bool {
    ||| (crate::models::token_of(t) matches Some(op) && ops == seq![op])
    ||| (crate::models::token_of(t) is None && t.len() == 1 && (v.contains(t[0]) || is_alpha(
        t[0],
    )) && ops == seq![Operator::Var(t[0])])
    ||| (crate::models::token_of(t) is None && (first_alias_true(v.list@, t) matches Some(k)
        && ops == seq![Operator::Var(k)]))
    ||| (crate::models::token_of(t) is None && (first_alias_false(v.list@, t) matches Some(k)
        && ops == seq![Operator::Not, Operator::Var(k)]))
}

/// Whether a chunk list stands for a token sequence, chunk by chunk.
#[verifier::opaque]
pub open spec fn chunks_denote(v: Variables, ts: Seq<Seq<char>>, toks: Seq<Operator>) -> bool
    decreases ts.len(),
{
    if ts.len() == 0 {
        toks.len() == 0
    } else {
        exists|pre: Seq<Operator>, opsl: Seq<Operator>|
            #![trigger pre + opsl]
            toks == pre + opsl && chunks_denote(v, ts.drop_last(), pre) && chunk_denotes(
                v,
                ts.last(),
                opsl,
            )
    }
}

/// One admitted rule's whole effect on the store: every fact keeps its
/// state, except that a rule with the given sides and display text is
/// appended once under each fact of the consequent that does not already
/// carry that text.
pub open spec fn rule_admitted(
    v1: Variables,
    v2: Variables,
    input: BTree,
    output: BTree,
    text: Seq<char>,
) -> bool {
    &&& v2.keys() == v1.keys()
    &&& forall|c: char| #[trigger] v2.contains(c) == v1.contains(c)
    &&& forall|c: char|
        #[trigger] v1.contains(c) ==> {
            let a = v1.spec_get(c);
            let b = v2.spec_get(c);
            &&& b.value == a.value
            &&& b.locked == a.locked
            &&& b.requested == a.requested
            &&& b.alias_true == a.alias_true
            &&& b.alias_false == a.alias_false
            &&& if output.spec_find_nodes(NodeFilter::Vars).contains(Operator::Var(c))
                && !has_rule_text(a.rules@, text) {
                exists|r: Rule|
                    #![trigger a.rules@.push(r)]
                    r.input == input && r.output == output && r.formula_string@ == text
                        && b.rules@ == a.rules@.push(r)
            } else {
                b.rules@ == a.rules@
            }
        }
}

/// `insert_rule`'s success effect, packaged: the admitted rule's trees and
/// text pin the per-fact rule lists.
pub proof fn lemma_admitted_from_insert(v1: Variables, v2: Variables, rule: Rule)
    requires
        v2.keys() == v1.keys(),
        forall|c: char| #[trigger] v2.contains(c) == v1.contains(c),
        forall|c: char|
            #[trigger] v1.contains(c) ==> {
                let a = v1.spec_get(c);
                let b = v2.spec_get(c);
                &&& b.value == a.value
                &&& b.locked == a.locked
                &&& b.requested == a.requested
                &&& b.alias_true == a.alias_true
                &&& b.alias_false == a.alias_false
                &&& b.rules@ == if rule.output.spec_find_nodes(NodeFilter::Vars).contains(
                    Operator::Var(c),
                ) && !has_rule_text(a.rules@, rule.formula_string@) {
                    a.rules@.push(rule)
                } else {
                    a.rules@
                }
            },
    ensures
        rule_admitted(v1, v2, rule.input, rule.output, rule.formula_string@),
{
    assert forall|c: char| #[trigger] v1.contains(c) implies {
        let a = v1.spec_get(c);
        let b = v2.spec_get(c);
        &&& b.value == a.value
        &&& b.locked == a.locked
        &&& b.requested == a.requested
        &&& b.alias_true == a.alias_true
        &&& b.alias_false == a.alias_false
        &&& if rule.output.spec_find_nodes(NodeFilter::Vars).contains(Operator::Var(c))
            && !has_rule_text(a.rules@, rule.formula_string@) {
            exists|r: Rule|
                #![trigger a.rules@.push(r)]
                r.input == rule.input && r.output == rule.output && r.formula_string@
                    == rule.formula_string@ && b.rules@ == a.rules@.push(r)
        } else {
            b.rules@ == a.rules@
        }
    } by {
        let a = v1.spec_get(c);
        if rule.output.spec_find_nodes(NodeFilter::Vars).contains(Operator::Var(c))
            && !has_rule_text(a.rules@, rule.formula_string@) {
            assert(v2.spec_get(c).rules@ == a.rules@.push(rule));
        }
    }
}

/// A rule line's whole effect: after only adding fresh letter facts, the
/// rule that the chunks stand for -- and, for an if-and-only-if, its
/// converse -- is admitted with its display text.
pub open spec fn registration_effect(v0: Variables, v2: Variables, cs: Seq<Seq<char>>) -> bool {
    exists|vt: Variables, a: Seq<Operator>, b: Seq<Operator>, t1: BTree, t2: BTree|
        #![trigger fact_extension(v0, vt), side_trees(a, t1), side_trees(b, t2)]
        {
            &&& fact_extension(v0, vt)
            &&& sep_free(a) && sep_free(b)
            &&& side_trees(a, t1) && side_trees(b, t2)
            &&& ((chunks_denote(v0, cs, a + seq![Operator::Then] + b) && rule_admitted(
                vt,
                v2,
                t1,
                t2,
                spec_rule_text(a, b, false),
            )) || (chunks_denote(v0, cs, a + seq![Operator::IfAndOnlyIf] + b) && exists|
                mid: Variables,
            |
                #![trigger rule_admitted(vt, mid, t1, t2, spec_rule_text(a, b, false))]
                rule_admitted(vt, mid, t1, t2, spec_rule_text(a, b, false)) && rule_admitted(
                    mid,
                    v2,
                    t2,
                    t1,
                    spec_rule_text(a, b, true),
                )))
        }
}


/// One operator chunk extends a denoted token sequence.
proof fn lemma_denote_step_op(
    v0: Variables,
    cs: Seq<Seq<char>>,
    i: int,
    ar0: Seq<Operator>,
    ar1: Seq<Operator>,
    op: Operator,
)
    requires
        0 <= i < cs.len(),
        crate::models::token_of(cs[i]) == Some(op),
        chunks_denote(v0, cs.take(i), ar0),
        ar1 == ar0.push(op),
    ensures
        chunks_denote(v0, cs.take(i + 1), ar1),
{
    reveal(chunks_denote);
    reveal(chunk_denotes);
    assert(cs.take(i + 1).drop_last() =~= cs.take(i));
    assert(cs.take(i + 1).last() == cs[i]);
    assert(ar1 =~= ar0 + seq![op]);
    assert(chunk_denotes(v0, cs[i], seq![op]));
}

/// One single-letter fact chunk extends a denoted token sequence.
proof fn lemma_denote_step_var(
    v0: Variables,
    cs: Seq<Seq<char>>,
    i: int,
    ar0: Seq<Operator>,
    ar1: Seq<Operator>,
    c: char,
)
    requires
        0 <= i < cs.len(),
        crate::models::token_of(cs[i]) is None,
        cs[i].len() == 1,
        cs[i][0] == c,
        v0.contains(c) || is_alpha(c),
        chunks_denote(v0, cs.take(i), ar0),
        ar1 == ar0.push(Operator::Var(c)),
    ensures
        chunks_denote(v0, cs.take(i + 1), ar1),
{
    reveal(chunks_denote);
    reveal(chunk_denotes);
    assert(cs.take(i + 1).drop_last() =~= cs.take(i));
    assert(cs.take(i + 1).last() == cs[i]);
    assert(ar1 =~= ar0 + seq![Operator::Var(c)]);
    assert(chunk_denotes(v0, cs[i], seq![Operator::Var(c)]));
}

/// One true-alias chunk extends a denoted token sequence.
proof fn lemma_denote_step_alias_true(
    v0: Variables,
    cs: Seq<Seq<char>>,
    i: int,
    ar0: Seq<Operator>,
    ar1: Seq<Operator>,
    k: char,
)
    requires
        0 <= i < cs.len(),
        crate::models::token_of(cs[i]) is None,
        first_alias_true(v0.list@, cs[i]) == Some(k),
        chunks_denote(v0, cs.take(i), ar0),
        ar1 == ar0.push(Operator::Var(k)),
    ensures
        chunks_denote(v0, cs.take(i + 1), ar1),
{
    reveal(chunks_denote);
    reveal(chunk_denotes);
    assert(cs.take(i + 1).drop_last() =~= cs.take(i));
    assert(cs.take(i + 1).last() == cs[i]);
    assert(ar1 =~= ar0 + seq![Operator::Var(k)]);
    assert(chunk_denotes(v0, cs[i], seq![Operator::Var(k)]));
}

/// One false-alias chunk extends a denoted token sequence with a negated
/// reference.
proof fn lemma_denote_step_alias_false(
    v0: Variables,
    cs: Seq<Seq<char>>,
    i: int,
    ar0: Seq<Operator>,
    ar1: Seq<Operator>,
    k: char,
)
    requires
        0 <= i < cs.len(),
        crate::models::token_of(cs[i]) is None,
        first_alias_false(v0.list@, cs[i]) == Some(k),
        chunks_denote(v0, cs.take(i), ar0),
        ar1 == ar0.push(Operator::Not).push(Operator::Var(k)),
    ensures
        chunks_denote(v0, cs.take(i + 1), ar1),
{
    reveal(chunks_denote);
    reveal(chunk_denotes);
    assert(cs.take(i + 1).drop_last() =~= cs.take(i));
    assert(cs.take(i + 1).last() == cs[i]);
    assert(ar1 =~= ar0 + seq![Operator::Not, Operator::Var(k)]);
    assert(chunk_denotes(v0, cs[i], seq![Operator::Not, Operator::Var(k)]));
}

/// Registers the rule (or, for an if-and-only-if, the two rules) that a
/// token sequence denotes: operator chunks become connectives, known fact
/// names and aliases become fact references, fresh single-letter names
/// create their facts, and the two sides around the single separator are
/// parsed and admitted.  Of already-known facts only the rule lists change,
/// and only by appending.
#[verifier::rlimit(100)]
#[verifier::spinoff_prover]
#[verifier::loop_isolation(false)]
pub fn def_rules(chunks: &Vec<String>, variables: &mut Variables) -> (r: Result<(), String>)
    requires
        crate::algo::kb_inv(*old(variables)),
    ensures
        crate::algo::kb_inv(*final(variables)),
        registration_preserved(*old(variables), *final(variables)),
        r is Ok ==> registration_effect(*old(variables), *final(variables), strs_view(chunks@)),
{
    let ghost v0 = *variables;
    let mut aritmetic: Vec<Operator> = Vec::new();
    let mut i: usize = 0;
    proof {
        reveal(chunks_denote);
        assert(strs_view(chunks@).take(0int) =~= Seq::<Seq<char>>::empty());
        assert(chunks_denote(v0, strs_view(chunks@).take(0int), aritmetic@));
    }
    while i < chunks.len()
        invariant
            i <= chunks@.len(),
            crate::algo::kb_inv(*variables),
            fact_extension(v0, *variables),
            chunks_denote(v0, strs_view(chunks@).take(i as int), aritmetic@),
            forall|c: char|
                #[trigger] v0.contains(c) ==> variables.contains(c) && variables.spec_get(c)
                    == v0.spec_get(c),
            forall|k: int|
                0 <= k < aritmetic@.len() && (#[trigger] aritmetic@[k]) is Var
                    ==> variables.contains(aritmetic@[k]->Var_0),
        decreases chunks@.len() - i,
    {

        let chunk = &chunks[i];
        match Operator::from_str(chunk.as_str()) {
            Some(op) => {
                let ghost ar0 = aritmetic@;
                aritmetic.push(op);
                proof {
                    assert(!(op is Var));
                    lemma_ari_push(ar0, aritmetic@, op, *variables);
                    lemma_denote_step_op(
                        v0,
                        strs_view(chunks@),
                        i as int,
                        ar0,
                        aritmetic@,
                        op,
                    );
                }
            },
            None => {
                let n = chunk.as_str().unicode_len();
                let first = if n == 1 {
                    Some(chunk.as_str().get_char(0))
                } else {
                    None
                };
                let key_hit = match first {
                    Some(c) => variables.find_index(c).is_some(),
                    None => false,
                };
                if key_hit {
                    let c = match first {
                        Some(c) => c,
                        None => {
                            proof {
                                assert(false);
                            }
                            '/'
                        },
                    };
                    let ghost ar0 = aritmetic@;
                    aritmetic.push(Operator::Var(c));
                    proof {
                        lemma_ari_push(ar0, aritmetic@, Operator::Var(c), *variables);
                        assert(v0.contains(c) || is_alpha(c)) by {
                            let ix = choose|ix: int|
                                0 <= ix < variables.list@.len() && (#[trigger] variables.list@[ix]).0
                                    == c;
                            if ix < v0.list@.len() {
                                assert(variables.list@[ix] == v0.list@[ix]);
                                assert(v0.contains(c));
                            } else {
                                assert(is_alpha(variables.list@[ix].0));
                            }
                        }
                        lemma_denote_step_var(
                            v0,
                            strs_view(chunks@),
                            i as int,
                            ar0,
                            aritmetic@,
                            c,
                        );
                    }
                } else {
                    match find_by_alias_true(variables, chunk) {
                        Some(k) => {
                            let ghost ar0 = aritmetic@;
                            aritmetic.push(Operator::Var(k));
                            proof {
                                lemma_ari_push(ar0, aritmetic@, Operator::Var(k), *variables);
                                lemma_alias_search_stable(v0.list@, variables.list@, chunk@);
                                lemma_denote_step_alias_true(
                                    v0,
                                    strs_view(chunks@),
                                    i as int,
                                    ar0,
                                    aritmetic@,
                                    k,
                                );
                            }
                        },
                        None => {
                            match find_by_alias_false(variables, chunk) {
                                Some(k) => {
                                    let ghost ar0 = aritmetic@;
                                    aritmetic.push(Operator::Not);
                                    proof {
                                        lemma_ari_push(ar0, aritmetic@, Operator::Not, *variables);
                                    }
                                    let ghost ar1 = aritmetic@;
                                    aritmetic.push(Operator::Var(k));
                                    proof {
                                        lemma_ari_push(ar1, aritmetic@, Operator::Var(k), *variables);
                                        lemma_alias_search_stable(
                                            v0.list@,
                                            variables.list@,
                                            chunk@,
                                        );
                                        lemma_denote_step_alias_false(
                                            v0,
                                            strs_view(chunks@),
                                            i as int,
                                            ar0,
                                            aritmetic@,
                                            k,
                                        );
                                    }
                                },
                                None => {
                                    match first {
                                        Some(c) => {
                                            if is_alpha_exec(c) {
                                                let ghost vs = *variables;
                                                let ghost ar0 = aritmetic@;
                                                variables.insert_new(c, Variable::default());
                                                proof {
                                                    lemma_inv_insert(
                                                        vs,
                                                        *variables,
                                                        c,
                                                        variables.spec_get(c),
                                                    );
                                                }
                                                aritmetic.push(Operator::Var(c));
                                                proof {
                                                    assert forall|k2: int|
                                                        0 <= k2 < aritmetic@.len() && (
                                                        #[trigger] aritmetic@[k2]) is Var implies variables.contains(
                                                        aritmetic@[k2]->Var_0,
                                                    ) by {
                                                        if k2 < ar0.len() {
                                                            assert(aritmetic@[k2] == ar0[k2]);
                                                            assert(vs.contains(ar0[k2]->Var_0));
                                                        } else {
                                                            assert(aritmetic@[k2]
                                                                == Operator::Var(c));
                                                        }
                                                    }
                                                    assert(fact_extension(v0, *variables));
                                                    lemma_denote_step_var(
                                                        v0,
                                                        strs_view(chunks@),
                                                        i as int,
                                                        ar0,
                                                        aritmetic@,
                                                        c,
                                                    );
                                                }
                                            } else {
                                                let mut e = chunk.clone();
                                                e.append(" is not a valid variable name ");
                                                proof {
                                                    lemma_registration_step(v0, *variables);
                                                }
                                                return Err(e);
                                            }
                                        },
                                        None => {
                                            let mut e = chunk.clone();
                                            e.append(" is unexpected in rule line");
                                            proof {
                                                lemma_registration_step(v0, *variables);
                                            }
                                            return Err(e);
                                        },
                                    }
                                },
                            }
                        },
                    }
                }
            },
        }
        i = i + 1;
    }
    proof {
        lemma_registration_step(v0, *variables);
    }
    // Split the tokens on the rule separator.
    let ghost vt = *variables;
    let mut splited: Vec<Vec<Operator>> = Vec::new();
    let mut cur: Vec<Operator> = Vec::new();
    let mut has_iaoi = false;
    let mut k: usize = 0;
    proof {
        assert(aritmetic@.take(0int) =~= cur@);
    }
    while k < aritmetic.len()
        invariant
            k <= aritmetic@.len(),
            sep_free(cur@),
            forall|a2: int| 0 <= a2 < splited@.len() ==> sep_free((#[trigger] splited@[a2])@),
            splited@.len() == 0 ==> aritmetic@.take(k as int) == cur@ && !has_iaoi,
            splited@.len() == 1 ==> aritmetic@.take(k as int) == splited@[0]@ + seq![
                if has_iaoi {
                    Operator::IfAndOnlyIf
                } else {
                    Operator::Then
                },
            ] + cur@,
            forall|a: int, b: int|
                #![trigger splited@[a]@[b]]
                0 <= a < splited@.len() && 0 <= b < splited@[a]@.len() && splited@[a]@[b] is Var
                    ==> variables.contains(splited@[a]@[b]->Var_0),
            forall|b: int|
                0 <= b < cur@.len() && (#[trigger] cur@[b]) is Var ==> variables.contains(
                    cur@[b]->Var_0,
                ),
            forall|kk: int|
                0 <= kk < aritmetic@.len() && (#[trigger] aritmetic@[kk]) is Var
                    ==> variables.contains(aritmetic@[kk]->Var_0),
        decreases aritmetic@.len() - k,
    {
        let op = aritmetic[k];
        proof {
            assert(aritmetic@.take(k as int + 1) =~= aritmetic@.take(k as int).push(op));
        }
        let ghost sp0 = splited@;
        if matches!(op, Operator::Then) || matches!(op, Operator::IfAndOnlyIf) {
            if matches!(op, Operator::IfAndOnlyIf) {
                has_iaoi = true;
            }
            splited.push(cur);
            cur = Vec::new();
            proof {
                if sp0.len() == 0 {
                    assert(aritmetic@.take(k as int + 1) =~= splited@[0]@ + seq![op] + cur@);
                }
            }
        } else {
            cur.push(op);
            proof {
                if sp0.len() == 0 {
                    assert(aritmetic@.take(k as int + 1) =~= cur@);
                }
                if sp0.len() == 1 {
                    assert(aritmetic@.take(k as int + 1) =~= splited@[0]@ + seq![
                        if has_iaoi {
                            Operator::IfAndOnlyIf
                        } else {
                            Operator::Then
                        },
                    ] + cur@);
                }
            }
        }
        k = k + 1;
    }
    proof {
        assert(aritmetic@.take(aritmetic@.len() as int) =~= aritmetic@);
    }
    splited.push(cur);
    if splited.len() == 1 {
        return Err(String::from_str("expected => or <=> operator"));
    }
    if splited.len() > 2 {
        return Err(String::from_str("expected only 1 => or <=> operator"));
    }
    match check_splited(&splited) {
        Ok(u) => {},
        Err(e) => {
            return Err(e);
        },
    }
    let mut rpn_a = match Operator::to_reverse_polish_notation(&splited[0]) {
        Ok(v) => v,
        Err(e) => {
            return Err(e);
        },
    };
    let mut rpn_b = match Operator::to_reverse_polish_notation(&splited[1]) {
        Ok(v) => v,
        Err(e) => {
            return Err(e);
        },
    };
    let ghost rpn_a0 = rpn_a@;
    let ghost rpn_b0 = rpn_b@;
    let input_tree = match BTree::from_vec(&mut rpn_a) {
        Ok(t) => t,
        Err(e) => {
            return Err(e);
        },
    };
    let output_tree = match BTree::from_vec(&mut rpn_b) {
        Ok(t) => t,
        Err(e) => {
            return Err(e);
        },
    };
    proof {
        // Every fact referenced by either tree came from the token sequence,
        // so it is a known fact.
        assert forall|k2: int|
            0 <= k2 < input_tree.spec_find_nodes(NodeFilter::Vars).len() implies variables.contains(
            (#[trigger] input_tree.spec_find_nodes(NodeFilter::Vars)[k2])->Var_0,
        ) by {
            let x = input_tree.spec_find_nodes(NodeFilter::Vars)[k2];
            lemma_vars_in_postfix(input_tree, x);
            assert(rpn_a0.contains(x)) by {
                let p = choose|p: int|
                    0 <= p < input_tree.postfix().len() && input_tree.postfix()[p] == x;
                assert(rpn_a0 == rpn_a@ + input_tree.postfix());
                assert(rpn_a0[rpn_a@.len() + p] == x);
            }
            lemma_rpn_elements(splited@[0]@, x);
            input_tree.lemma_find_nodes_match(NodeFilter::Vars);
        }
        assert forall|k2: int|
            0 <= k2 < output_tree.spec_find_nodes(NodeFilter::Vars).len() implies variables.contains(
            (#[trigger] output_tree.spec_find_nodes(NodeFilter::Vars)[k2])->Var_0,
        ) by {
            let x = output_tree.spec_find_nodes(NodeFilter::Vars)[k2];
            lemma_vars_in_postfix(output_tree, x);
            assert(rpn_b0.contains(x)) by {
                let p = choose|p: int|
                    0 <= p < output_tree.postfix().len() && output_tree.postfix()[p] == x;
                assert(rpn_b0 == rpn_b@ + output_tree.postfix());
                assert(rpn_b0[rpn_b@.len() + p] == x);
            }
            lemma_rpn_elements(splited@[1]@, x);
            output_tree.lemma_find_nodes_match(NodeFilter::Vars);
        }
    }
    let fs = aritmetic_to_string(&splited, false);
    let rule = Rule { input: input_tree, output: output_tree, formula_string: fs };
    proof {
        let rv = crate::algo::rule_vars(rule);
        let iv = rule.input.spec_find_nodes(NodeFilter::Vars);
        let ov = rule.output.spec_find_nodes(NodeFilter::Vars);
        assert forall|k2: int| 0 <= k2 < rv.len() implies variables.contains(
            (#[trigger] rv[k2])->Var_0,
        ) by {
            if k2 < iv.len() {
                assert(rv[k2] == iv[k2]);
            } else {
                assert(rv[k2] == ov[k2 - iv.len()]);
            }
        }
    }
    let ghost v1 = *variables;
    match insert_rule(&rule, variables) {
        Ok(u) => {
            proof {
                lemma_registration_from_rule(v1, *variables, rule);
                lemma_registration_trans(v0, v1, *variables);
                lemma_admitted_from_insert(v1, *variables, rule);
            }
        },
        Err(e) => {
            return Err(e);
        },
    }
    let ghost vmid = *variables;
    if has_iaoi {
        let rule2 = Rule {
            input: crate::models::clone_tree(&rule.output),
            output: crate::models::clone_tree(&rule.input),
            formula_string: aritmetic_to_string(&splited, true),
        };
        proof {
            let rv = crate::algo::rule_vars(rule2);
            let iv = rule2.input.spec_find_nodes(NodeFilter::Vars);
            let ov = rule2.output.spec_find_nodes(NodeFilter::Vars);
            assert forall|k2: int| 0 <= k2 < rv.len() implies variables.contains(
                (#[trigger] rv[k2])->Var_0,
            ) by {
                if k2 < iv.len() {
                    assert(rv[k2] == iv[k2]);
                    assert(v1.contains(rv[k2]->Var_0));
                } else {
                    assert(rv[k2] == ov[k2 - iv.len()]);
                    assert(v1.contains(rv[k2]->Var_0));
                }
            }
        }
        let ghost v2 = *variables;
        match insert_rule(&rule2, variables) {
            Ok(u) => {
                proof {
                    lemma_registration_from_rule(v2, *variables, rule2);
                    lemma_registration_trans(v0, v2, *variables);
                    lemma_admitted_from_insert(v2, *variables, rule2);
                }
            },
            Err(e) => {
                return Err(e);
            },
        }
    }
    proof {
        let cs = strs_view(chunks@);
        let a = splited@[0]@;
        let b = splited@[1]@;
        let ghost sep: Operator = if has_iaoi {
            Operator::IfAndOnlyIf
        } else {
            Operator::Then
        };
        assert(cs.take(cs.len() as int) =~= cs);
        assert(chunks_denote(v0, cs, aritmetic@));
        assert(aritmetic@ == a + seq![sep] + b);
        assert(fact_extension(v0, vt));
        assert(vt == v1);
        assert(spec_rpn(a) is Ok && spec_rpn(a)->Ok_0 == rpn_a@ + input_tree.postfix());
        assert(side_trees(a, input_tree));
        assert(spec_rpn(b) is Ok && spec_rpn(b)->Ok_0 == rpn_b@ + output_tree.postfix());
        assert(side_trees(b, output_tree));
        assert(rule.formula_string@ == spec_rule_text(a, b, false));
        if has_iaoi {
            assert(chunks_denote(v0, cs, a + seq![Operator::IfAndOnlyIf] + b));
            assert(rule_admitted(
                v1,
                vmid,
                input_tree,
                output_tree,
                spec_rule_text(a, b, false),
            ));
            assert(rule_admitted(
                vmid,
                *variables,
                output_tree,
                input_tree,
                spec_rule_text(a, b, true),
            ));
            assert(registration_effect(v0, *variables, cs));
        } else {
            assert(chunks_denote(v0, cs, a + seq![Operator::Then] + b));
            assert(rule_admitted(
                v1,
                *variables,
                input_tree,
                output_tree,
                spec_rule_text(a, b, false),
            ));
            assert(registration_effect(v0, *variables, cs));
        }
    }
    Ok(())
}

/// Finds the first fact whose false-alias is this text.
fn find_by_alias_false(variables: &Variables, t: &String) -> (r: Option<char>)
    requires
        variables.wf(),
    ensures
        r == first_alias_false(variables.list@, t@),
        r matches Some(k) ==> variables.contains(k),
{
    let mut i: usize = 0;
    proof {
        assert(variables.list@.skip(0) =~= variables.list@);
    }
    while i < variables.list.len()
        invariant
            i <= variables.list@.len(),
            first_alias_false(variables.list@, t@) == first_alias_false(
                variables.list@.skip(i as int),
                t@,
            ),
        decreases variables.list@.len() - i,
    {
        let entry = &variables.list[i];
        proof {
            assert(variables.list@.skip(i as int)[0] == variables.list@[i as int]);
            assert(variables.list@.skip(i as int).drop_first() =~= variables.list@.skip(
                i as int + 1,
            ));
        }
        let hit = match &entry.1.alias_false {
            Some(a) => str_eq(a.as_str(), t.as_str()),
            None => false,
        };
        if hit {
            proof {
                assert(variables.list@[i as int].0 == entry.0);
            }
            return Some(entry.0);
        }
        i = i + 1;
    }
    proof {
        assert(variables.list@.skip(variables.list@.len() as int) =~= Seq::<
            (char, Variable),
        >::empty());
    }
    None
}

} // verus!

verus! {



/// Alias bookkeeping reads only fields that a field-for-field copy keeps,
/// so a definition line is accepted against the copy exactly when it is
/// accepted against the original.
proof fn lemma_def_var_ok_copy(v1: Variables, v2: Variables, cs: Seq<Seq<char>>)
    requires
        store_copy(v1, v2),
    ensures
        def_var_ok(v2, cs) == def_var_ok(v1, cs),
{
    assert forall|name: char, t: Seq<char>| #[trigger] alias_taken(v2, name, t) == alias_taken(
        v1,
        name,
        t,
    ) by {
        if alias_taken(v1, name, t) {
            let i = choose|i: int|
                0 <= i < v1.list@.len() && (#[trigger] v1.list@[i]).0 != name && (opt_text(
                    v1.list@[i].1.alias_true,
                ) == Some(t) || opt_text(v1.list@[i].1.alias_false) == Some(t));
            assert(v2.list@[i].0 == v1.list@[i].0);
            assert(alias_taken(v2, name, t));
        }
        if alias_taken(v2, name, t) {
            let i = choose|i: int|
                0 <= i < v2.list@.len() && (#[trigger] v2.list@[i]).0 != name && (opt_text(
                    v2.list@[i].1.alias_true,
                ) == Some(t) || opt_text(v2.list@[i].1.alias_false) == Some(t));
            assert(v1.list@[i].0 == v2.list@[i].0);
            assert(alias_taken(v1, name, t));
        }
    }
}

/// The command words are distinct tokens.
proof fn lemma_command_words_distinct()
    ensures
        "def"@.len() == 3,
        "if"@.len() == 2,
        "="@.len() == 1,
        "?"@.len() == 1,
        "="@[0] == '=',
        "?"@[0] == '?',
        "def"@[0] == 'd',
        "if"@[0] == 'i',
{
    reveal_strlit("def");
    reveal_strlit("if");
    reveal_strlit("=");
    reveal_strlit("?");
}

/// What one accepted line does to the store, dispatched on its first chunk
/// against a field-for-field copy: `def` defines a fact, `if` or a bare
/// rule registers the denoted rule, `=` (or an `=` prefix) sets the named
/// facts true and locked, and `?` (or a `?` prefix) marks them requested.
#[verifier::opaque]
pub open spec fn line_applied(v1: Variables, v2: Variables, line: Seq<char>) -> bool {
    &&& spec_line_to_chunk(line) is Ok
    &&& ({
        let cs = spec_line_to_chunk(line)->Ok_0;
        if cs.len() == 0 {
            store_copy(v1, v2)
        } else if cs[0] == "def"@ {
            exists|w: Variables|
                #[trigger] store_copy(v1, w) && def_var_ok(w, cs.drop_first())
                    && def_var_applied(w, v2, cs.drop_first())
        } else if cs[0] == "if"@ {
            exists|w: Variables|
                #[trigger] store_copy(v1, w) && registration_effect(w, v2, cs.drop_first())
        } else if cs[0] == "="@ {
            exists|w: Variables|
                #[trigger] store_copy(v1, w) && (forall|i: int|
                    0 <= i < cs.drop_first().len() ==> chunk_set_done(
                        w,
                        #[trigger] cs.drop_first()[i],
                        v2,
                    ))
        } else if cs[0].len() > 0 && cs[0][0] == '=' {
            let ts = seq![cs[0].drop_first()] + cs.drop_first();
            exists|w: Variables|
                #[trigger] store_copy(v1, w) && (forall|i: int|
                    0 <= i < ts.len() ==> chunk_set_done(w, #[trigger] ts[i], v2))
        } else if cs[0] == "?"@ {
            exists|w: Variables|
                #[trigger] store_copy(v1, w) && (forall|i: int|
                    0 <= i < cs.drop_first().len() ==> chunk_req_done(
                        w,
                        #[trigger] cs.drop_first()[i],
                        v2,
                    ))
        } else if cs[0].len() > 0 && cs[0][0] == '?' {
            let ts = seq![cs[0].drop_first()] + cs.drop_first();
            exists|w: Variables|
                #[trigger] store_copy(v1, w) && (forall|i: int|
                    0 <= i < ts.len() ==> chunk_req_done(w, #[trigger] ts[i], v2))
        } else {
            exists|w: Variables|
                #[trigger] store_copy(v1, w) && registration_effect(w, v2, cs)
        }
    })
}

/// Parses one line against a copy of the knowledge base and commits the
/// copy only on success: a rejected line leaves the knowledge base exactly
/// as it was.  A line starting with `def` defines a fact, `if` or a bare
/// rule registers rules, `=` (or an `=` prefix) sets facts true, and `?`
/// (or a `?` prefix) marks facts requested; in restricted mode a bare rule
/// line is refused.
#[verifier::loop_isolation(false)]
pub fn parse_line(old_variables: &mut Variables, line: String, restricted: bool) -> (r: Result<
    (),
    String,
>)
    requires
        crate::algo::kb_inv(*old(old_variables)),
    ensures
        crate::algo::kb_inv(*final(old_variables)),
        r is Err ==> *final(old_variables) == *old(old_variables),
        forall|c: char|
            #[trigger] old(old_variables).contains(c) ==> final(old_variables).contains(c),
        ({
            let lc = spec_line_to_chunk(line@);
            &&& (lc is Err ==> r is Err && r->Err_0@ == lc->Err_0)
            &&& (lc matches Ok(cs) && cs.len() == 0 ==> r is Ok)
            &&& ((lc matches Ok(cs) && restricted && cs.len() > 0 && !(cs[0] == "def"@ || cs[0]
                == "if"@ || cs[0] == "="@ || cs[0] == "?"@ || (cs[0].len() > 0 && (cs[0][0] == '='
                || cs[0][0] == '?')))) ==> r is Err)
        }),
        r is Ok ==> line_applied(*old(old_variables), *final(old_variables), line@),
        ({
            let lc = spec_line_to_chunk(line@);
            lc matches Ok(cs) ==> {
                let ts = seq![cs[0].drop_first()] + cs.drop_first();
                &&& (cs.len() > 0 && cs[0] == "def"@ ==> (r is Ok <==> def_var_ok(
                    *old(old_variables),
                    cs.drop_first(),
                )))
                &&& (cs.len() > 0 && cs[0] == "="@ && (forall|i2: int, j2: int|
                    #![trigger cs.drop_first()[i2][j2]]
                    0 <= i2 < cs.drop_first().len() && 0 <= j2 < cs.drop_first()[i2].len()
                        ==> is_alpha(cs.drop_first()[i2][j2])) ==> r is Ok)
                &&& (cs.len() > 0 && cs[0] == "?"@ && (forall|i2: int, j2: int|
                    #![trigger cs.drop_first()[i2][j2]]
                    0 <= i2 < cs.drop_first().len() && 0 <= j2 < cs.drop_first()[i2].len()
                        ==> is_alpha(cs.drop_first()[i2][j2])) ==> r is Ok)
                &&& (cs.len() > 0 && cs[0] != "="@ && cs[0].len() > 0 && cs[0][0] == '=' && (
                forall|i2: int, j2: int|
                    #![trigger ts[i2][j2]]
                    0 <= i2 < ts.len() && 0 <= j2 < ts[i2].len() ==> is_alpha(ts[i2][j2]))
                    ==> r is Ok)
                &&& (cs.len() > 0 && cs[0] != "?"@ && cs[0].len() > 0 && cs[0][0] == '?' && (
                forall|i2: int, j2: int|
                    #![trigger ts[i2][j2]]
                    0 <= i2 < ts.len() && 0 <= j2 < ts[i2].len() ==> is_alpha(ts[i2][j2]))
                    ==> r is Ok)
            }
        }),
{
    let mut variables = clone_variables(old_variables);
    let ghost vc = variables;
    proof {
        lemma_clone_inv(*old_variables, variables);
        assert(store_copy(*old_variables, vc));
        lemma_command_words_distinct();
    }
    let chunks = match line_to_chunk(line.as_str()) {
        Ok(v) => v,
        Err(e) => {
            return Err(e);
        },
    };
    if chunks.len() == 0 {
        proof {
            reveal(line_applied);
        }
        *old_variables = variables;
        return Ok(());
    }
    let first_len = chunks[0].as_str().unicode_len();
    let first_char = if first_len > 0 {
        chunks[0].as_str().get_char(0)
    } else {
        '/'
    };
    let ghost cs = strs_view(chunks@);
    let r = if str_eq(chunks[0].as_str(), "def") {
        let rest = tail_strings(&chunks, 1);
        let rr = def_var(&rest, &mut variables);
        proof {
            assert(strs_view(rest@) =~= cs.drop_first());
            lemma_def_var_ok_copy(*old(old_variables), vc, cs.drop_first());
            assert(rr is Ok <==> def_var_ok(*old(old_variables), cs.drop_first()));
            if rr is Ok {
                reveal(line_applied);
                assert(line_applied(*old(old_variables), variables, line@));
            }
        }
        rr
    } else if str_eq(chunks[0].as_str(), "if") {
        let rest = tail_strings(&chunks, 1);
        let rr = def_rules(&rest, &mut variables);
        proof {
            if rr is Ok {
                reveal(line_applied);
                assert(strs_view(rest@) =~= cs.drop_first());
                assert(line_applied(*old(old_variables), variables, line@));
            }
        }
        rr
    } else if str_eq(chunks[0].as_str(), "=") {
        let rest = tail_strings(&chunks, 1);
        let rr = user_set(&rest, &mut variables);
        proof {
            assert(strs_view(rest@) =~= cs.drop_first());
            if forall|i2: int, j2: int|
                #![trigger cs.drop_first()[i2][j2]]
                0 <= i2 < cs.drop_first().len() && 0 <= j2 < cs.drop_first()[i2].len()
                    ==> is_alpha(cs.drop_first()[i2][j2]) {
                assert forall|i2: int, j2: int|
                    #![trigger rest@[i2]@[j2]]
                    0 <= i2 < rest@.len() && 0 <= j2 < rest@[i2]@.len() implies is_alpha(
                    rest@[i2]@[j2],
                ) by {
                    assert(rest@[i2]@ == cs.drop_first()[i2]);
                }
                assert(rr is Ok);
            }
            if rr is Ok {
                reveal(line_applied);
                assert forall|i2: int| 0 <= i2 < cs.drop_first().len() implies chunk_set_done(
                    vc,
                    #[trigger] cs.drop_first()[i2],
                    variables,
                ) by {
                    assert(cs.drop_first()[i2] == (rest@[i2])@);
                }
                assert(line_applied(*old(old_variables), variables, line@));
            }
        }
        rr
    } else if first_char == '=' {
        let mut rest: Vec<String> = Vec::new();
        let stripped = chunks[0].as_str().substring_char(1, first_len);
        rest.push(String::from_str(stripped));
        let mut others = tail_strings(&chunks, 1);
        rest.append(&mut others);
        let rr = user_set(&rest, &mut variables);
        proof {
            assert(cs[0].len() > 0 && cs[0][0] == '=');
            let ts = seq![cs[0].drop_first()] + cs.drop_first();
            assert(strs_view(rest@) =~= ts) by {
                assert(stripped@ =~= cs[0].drop_first());
            }
            if forall|i2: int, j2: int|
                #![trigger ts[i2][j2]]
                0 <= i2 < ts.len() && 0 <= j2 < ts[i2].len() ==> is_alpha(ts[i2][j2]) {
                assert forall|i2: int, j2: int|
                    #![trigger rest@[i2]@[j2]]
                    0 <= i2 < rest@.len() && 0 <= j2 < rest@[i2]@.len() implies is_alpha(
                    rest@[i2]@[j2],
                ) by {
                    assert(rest@[i2]@ == ts[i2]);
                }
                assert(rr is Ok);
            }
            if rr is Ok {
                reveal(line_applied);
                assert forall|i2: int| 0 <= i2 < ts.len() implies chunk_set_done(
                    vc,
                    #[trigger] ts[i2],
                    variables,
                ) by {
                    assert(ts[i2] == (rest@[i2])@);
                }
                assert(line_applied(*old(old_variables), variables, line@));
            }
        }
        rr
    } else if str_eq(chunks[0].as_str(), "?") {
        let rest = tail_strings(&chunks, 1);
        let rr = requests(&rest, &mut variables);
        proof {
            assert(strs_view(rest@) =~= cs.drop_first());
            if forall|i2: int, j2: int|
                #![trigger cs.drop_first()[i2][j2]]
                0 <= i2 < cs.drop_first().len() && 0 <= j2 < cs.drop_first()[i2].len()
                    ==> is_alpha(cs.drop_first()[i2][j2]) {
                assert forall|i2: int, j2: int|
                    #![trigger rest@[i2]@[j2]]
                    0 <= i2 < rest@.len() && 0 <= j2 < rest@[i2]@.len() implies is_alpha(
                    rest@[i2]@[j2],
                ) by {
                    assert(rest@[i2]@ == cs.drop_first()[i2]);
                }
                assert(rr is Ok);
            }
            if rr is Ok {
                reveal(line_applied);
                assert forall|i2: int| 0 <= i2 < cs.drop_first().len() implies chunk_req_done(
                    vc,
                    #[trigger] cs.drop_first()[i2],
                    variables,
                ) by {
                    assert(cs.drop_first()[i2] == (rest@[i2])@);
                }
                assert(line_applied(*old(old_variables), variables, line@));
            }
        }
        rr
    } else if first_char == '?' {
        let mut rest: Vec<String> = Vec::new();
        let stripped = chunks[0].as_str().substring_char(1, first_len);
        rest.push(String::from_str(stripped));
        let mut others = tail_strings(&chunks, 1);
        rest.append(&mut others);
        let rr = requests(&rest, &mut variables);
        proof {
            assert(cs[0].len() > 0 && cs[0][0] == '?');
            let ts = seq![cs[0].drop_first()] + cs.drop_first();
            assert(strs_view(rest@) =~= ts) by {
                assert(stripped@ =~= cs[0].drop_first());
            }
            if forall|i2: int, j2: int|
                #![trigger ts[i2][j2]]
                0 <= i2 < ts.len() && 0 <= j2 < ts[i2].len() ==> is_alpha(ts[i2][j2]) {
                assert forall|i2: int, j2: int|
                    #![trigger rest@[i2]@[j2]]
                    0 <= i2 < rest@.len() && 0 <= j2 < rest@[i2]@.len() implies is_alpha(
                    rest@[i2]@[j2],
                ) by {
                    assert(rest@[i2]@ == ts[i2]);
                }
                assert(rr is Ok);
            }
            if rr is Ok {
                reveal(line_applied);
                assert forall|i2: int| 0 <= i2 < ts.len() implies chunk_req_done(
                    vc,
                    #[trigger] ts[i2],
                    variables,
                ) by {
                    assert(ts[i2] == (rest@[i2])@);
                }
                assert(line_applied(*old(old_variables), variables, line@));
            }
        }
        rr
    } else if restricted {
        let mut e = String::from_str("Expected one of [=, ?, def, if] found ");
        e.append(line.as_str());
        Err(e)
    } else {
        let rr = def_rules(&chunks, &mut variables);
        proof {
            if rr is Ok {
                reveal(line_applied);
                assert(line_applied(*old(old_variables), variables, line@));
            }
        }
        rr
    };
    match r {
        Ok(u) => {
            proof {
                assert forall|c: char| #[trigger] old(old_variables).contains(c)
                    implies variables.contains(c) by {
                    assert(vc.contains(c));
                }
            }
            *old_variables = variables;
            Ok(())
        },
        Err(e) => Err(e),
    }
}

/// One source line's step: a line that is only comment or emptiness
/// changes nothing; any other line is cleaned and applied as
/// `line_applied` describes.
pub open spec fn line_step_ok(w1: Variables, w2: Variables, l: String) -> bool {
    if before_hash(l@).len() > 0 {
        line_applied(w1, w2, spec_trim(before_hash(l@)))
    } else {
        w2 == w1
    }
}

/// A chain of stores that applies a line list in order.
pub open spec fn chain_shape(
    v1: Variables,
    v2: Variables,
    ls: Seq<String>,
    mids: Seq<Variables>,
) -> bool {
    &&& mids.len() == ls.len() + 1
    &&& mids[0] == v1
    &&& mids[ls.len() as int] == v2
    &&& forall|i: int| 0 <= i < ls.len() ==> line_step_ok(#[trigger] mids[i], mids[i + 1], ls[i])
}

/// The store that results from applying a line list in order, through some
/// chain of intermediate stores.
pub open spec fn lines_applied(v1: Variables, v2: Variables, ls: Seq<String>) -> bool {
    exists|mids: Seq<Variables>| #[trigger] chain_shape(v1, v2, ls, mids)
}

/// Feeds the cleaned lines of a rule source into the knowledge base, line
/// by line, stopping at the first rejected line; the lines before it stay
/// admitted, and on success the store is exactly the in-order application
/// of every line.
#[verifier::loop_isolation(false)]
pub fn fill_maps(variables: &mut Variables, lines: &Vec<String>) -> (r: Result<(), String>)
    requires
        crate::algo::kb_inv(*old(variables)),
    ensures
        crate::algo::kb_inv(*final(variables)),
        forall|c: char| #[trigger] old(variables).contains(c) ==> final(variables).contains(c),
        r is Ok ==> lines_applied(*old(variables), *final(variables), lines@),
        r is Err ==> exists|n: int|
            #![trigger lines@.take(n)]
            0 <= n < lines@.len() && lines_applied(
                *old(variables),
                *final(variables),
                lines@.take(n),
            ) && before_hash(lines@[n]@).len() > 0,
{
    let ghost v0 = *variables;
    let ghost mut mids: Seq<Variables> = seq![v0];
    let mut i: usize = 0;
    while i < lines.len()
        invariant
            i <= lines@.len(),
            crate::algo::kb_inv(*variables),
            chain_shape(v0, *variables, lines@.take(i as int), mids),
            forall|c: char| #[trigger] v0.contains(c) ==> variables.contains(c),
        decreases lines@.len() - i,
    {
        let ghost pre = *variables;
        let ghost mids0 = mids;
        match clean_line(lines[i].as_str()) {
            Some(l) => {
                let ghost lv = l@;
                match parse_line(variables, l, false) {
                    Ok(u) => {
                        proof {
                            assert(line_applied(pre, *variables, lv));
                            assert(lv == spec_trim(before_hash(lines@[i as int]@)));
                            assert(line_step_ok(pre, *variables, lines@[i as int]));
                        }
                    },
                    Err(e) => {
                        proof {
                            assert(chain_shape(v0, *variables, lines@.take(i as int), mids));
                            assert(lines_applied(v0, *variables, lines@.take(i as int)));
                        }
                        return Err(e);
                    },
                }
            },
            None => {
                proof {
                    assert(before_hash(lines@[i as int]@).len() == 0);
                    assert(line_step_ok(pre, *variables, lines@[i as int]));
                }
            },
        }
        proof {
            mids = mids.push(*variables);
            assert(chain_shape(v0, *variables, lines@.take(i as int + 1), mids)) by {
                assert(mids.len() == lines@.take(i as int + 1).len() + 1);
                assert(mids[0] == mids0[0]);
                assert(mids[i as int + 1] == *variables);
                assert forall|n: int| 0 <= n < lines@.take(i as int + 1).len() implies line_step_ok(
                    #[trigger] mids[n],
                    mids[n + 1],
                    lines@.take(i as int + 1)[n],
                ) by {
                    if n < i {
                        assert(mids[n] == mids0[n]);
                        assert(mids[n + 1] == mids0[n + 1]);
                        assert(lines@.take(i as int + 1)[n] == lines@.take(i as int)[n]);
                        assert(line_step_ok(mids0[n], mids0[n + 1], lines@.take(i as int)[n]));
                    } else {
                        assert(mids[n] == mids0[i as int] && mids[n + 1] == *variables);
                        assert(mids0[i as int] == pre);
                        assert(lines@.take(i as int + 1)[n] == lines@[i as int]);
                    }
                }
            }
        }
        i = i + 1;
    }
    proof {
        assert(lines@.take(lines@.len() as int) =~= lines@);
        assert(chain_shape(v0, *variables, lines@, mids));
    }
    Ok(())
}

} // verus!

verus! {

/// A token that can stand inside one side of a registered rule: a
/// connective, a parenthesis, or a fact reference with a letter name.
pub open spec fn admissible_token(op: Operator) -> bool {
    match op {
        Operator::Var(c) => is_alpha(c),
        Operator::B(_) => false,
        Operator::Then => false,
        Operator::IfAndOnlyIf => false,
        _ => true,
    }
}

/// Whether every token of a side is admissible.
pub open spec fn admissible_side(s: Seq<Operator>) -> bool {
    forall|i: int| 0 <= i < s.len() ==> admissible_token(#[trigger] s[i])
}

/// Folding a line's characters composes over concatenation.
proof fn lemma_fold_append(s1: Seq<char>, s2: Seq<char>, acc: Seq<Seq<char>>, scoped: bool)
    ensures
        chunks_fold(s1 + s2, acc, scoped) == ({
            let m = chunks_fold(s1, acc, scoped);
            chunks_fold(s2, m.0, m.1)
        }),
    decreases s1.len(),
{
    if s1.len() == 0 {
        assert(s1 + s2 =~= s2);
    } else {
        assert((s1 + s2)[0] == s1[0]);
        assert((s1 + s2).drop_first() =~= s1.drop_first() + s2);
        let st = chunk_step(acc, scoped, s1[0]);
        lemma_fold_append(s1.drop_first(), s2, st.0, st.1);
    }
}

/// The chunks that lexing one rendered token appends to the accumulator.
pub open spec fn token_pattern(op: Operator) -> Seq<Seq<char>> {
    match op {
        Operator::Var(c) => seq![seq![c]],
        Operator::Equal => seq![Seq::empty(), "="@],
        Operator::Material => seq![Seq::empty(), ">>"@, Seq::empty()],
        Operator::Then => seq![Seq::empty(), "=>"@, Seq::empty()],
        _ => seq![Seq::empty(), spec_symbol(op), Seq::empty()],
    }
}

/// Lexing one space-prefixed token text appends exactly its pattern.
proof fn lemma_token_render(op: Operator, acc: Seq<Seq<char>>)
    requires
        admissible_token(op) || op == Operator::Then,
        acc.len() >= 1,
    ensures
        chunks_fold(" "@ + spec_symbol(op), acc, false) == (acc + token_pattern(op), false),
{
    reveal_strlit(" ");
    reveal_strlit("&");
    reveal_strlit("|");
    reveal_strlit("^");
    reveal_strlit("=");
    reveal_strlit(">>");
    reveal_strlit("!");
    reveal_strlit("=>");
    reveal_strlit("<=");
    reveal_strlit("<");
    reveal_strlit(">");
    reveal_strlit("(");
    reveal_strlit(")");
    let text = " "@ + spec_symbol(op);
    let a0 = acc.push(Seq::<char>::empty());
    assert(text[0] == ' ');
    assert(chunk_step(acc, false, ' ') == (a0, false));
    match op {
        Operator::Var(c) => {
            assert(spec_symbol(op) =~= seq![c]);
            assert(text.len() == 2);
            assert(text[1] == c);
            assert(text.drop_first() =~= seq![c]);
            assert(!is_space(c) && c != '>' && c != '=' && c != '!' && c != '+' && c != '^' && c
                != '&' && c != '(' && c != ')' && c != '|' && c != '"');
            let a1 = a0.drop_last().push(a0.last().push(c));
            assert(chunk_step(a0, false, c) == (a1, false));
            assert(a1 =~= acc + token_pattern(op));
            assert(seq![c].drop_first() =~= Seq::<char>::empty());
            assert(chunks_fold(text, acc, false) == chunks_fold(text.drop_first(), a0, false));
            assert(chunks_fold(seq![c], a0, false) == chunks_fold(
                seq![c].drop_first(),
                a1,
                false,
            ));
            assert(chunks_fold(Seq::<char>::empty(), a1, false) == (a1, false));
        },
        Operator::Equal => {
            assert(text.len() == 2);
            assert(text[1] == '=');
            assert(a0.last() =~= Seq::<char>::empty());
            assert(!(a0.last() == "<"@)) by {
                assert(a0.last().len() == 0 && "<"@.len() == 1);
            }
            let a1 = a0.push("="@);
            assert(chunk_step(a0, false, '=') == (a1, false));
            assert(text.drop_first() =~= seq!['=']);
            assert(seq!['='].drop_first() =~= Seq::<char>::empty());
            assert(a1 =~= acc + token_pattern(op));
            assert(chunks_fold(text, acc, false) == chunks_fold(text.drop_first(), a0, false));
            assert(chunks_fold(seq!['='], a0, false) == chunks_fold(
                seq!['='].drop_first(),
                a1,
                false,
            ));
            assert(chunks_fold(Seq::<char>::empty(), a1, false) == (a1, false));
        },
        Operator::Material => {
            assert(text.len() == 3);
            assert(text[1] == '>' && text[2] == '>');
            assert(a0.last() =~= Seq::<char>::empty());
            assert(!(a0.last() == "="@ || a0.last() == ">"@ || a0.last() == "<="@));
            let a1 = a0.push(">"@);
            assert(chunk_step(a0, false, '>') == (a1, false));
            assert(a1.last() == ">"@);
            let a2 = a1.drop_last().push(a1.last().push('>')).push(Seq::empty());
            assert(chunk_step(a1, false, '>') == (a2, false));
            assert(">"@.push('>') =~= ">>"@);
            assert(text.drop_first() =~= seq!['>', '>']);
            assert(seq!['>', '>'].drop_first() =~= seq!['>']);
            assert(seq!['>'].drop_first() =~= Seq::<char>::empty());
            assert(a2 =~= acc + token_pattern(op));
            assert(chunks_fold(text, acc, false) == chunks_fold(text.drop_first(), a0, false));
            assert(chunks_fold(seq!['>', '>'], a0, false) == chunks_fold(
                seq!['>', '>'].drop_first(),
                a1,
                false,
            ));
            assert(chunks_fold(seq!['>'], a1, false) == chunks_fold(
                seq!['>'].drop_first(),
                a2,
                false,
            ));
            assert(chunks_fold(Seq::<char>::empty(), a2, false) == (a2, false));
        },
        Operator::Then => {
            assert(text.len() == 3);
            assert(text[1] == '=' && text[2] == '>');
            assert(a0.last() =~= Seq::<char>::empty());
            assert(!(a0.last() == "<"@)) by {
                assert(a0.last().len() == 0 && "<"@.len() == 1);
            }
            let a1 = a0.push("="@);
            assert(chunk_step(a0, false, '=') == (a1, false));
            assert(a1.last() == "="@);
            let a2 = a1.drop_last().push(a1.last().push('>')).push(Seq::empty());
            assert(chunk_step(a1, false, '>') == (a2, false));
            assert("="@.push('>') =~= "=>"@);
            assert(text.drop_first() =~= seq!['=', '>']);
            assert(seq!['=', '>'].drop_first() =~= seq!['>']);
            assert(seq!['>'].drop_first() =~= Seq::<char>::empty());
            assert(a2 =~= acc + token_pattern(op));
            assert(chunks_fold(text, acc, false) == chunks_fold(text.drop_first(), a0, false));
            assert(chunks_fold(seq!['=', '>'], a0, false) == chunks_fold(
                seq!['=', '>'].drop_first(),
                a1,
                false,
            ));
            assert(chunks_fold(seq!['>'], a1, false) == chunks_fold(
                seq!['>'].drop_first(),
                a2,
                false,
            ));
            assert(chunks_fold(Seq::<char>::empty(), a2, false) == (a2, false));
        },
        Operator::And | Operator::Or | Operator::Xor | Operator::Not
            | Operator::Parentesis(_) => {
            let c = spec_symbol(op)[0];
            assert(spec_symbol(op).len() == 1);
            assert(text.len() == 2);
            assert(text[1] == c);
            assert(c == '!' || c == '+' || c == '^' || c == '&' || c == '(' || c == ')' || c
                == '|');
            let a1 = a0.push(seq![c]).push(Seq::empty());
            assert(chunk_step(a0, false, c) == (a1, false));
            assert(text.drop_first() =~= seq![c]);
            assert(seq![c].drop_first() =~= Seq::<char>::empty());
            assert(seq![c] =~= spec_symbol(op));
            assert(a1 =~= acc + token_pattern(op));
            assert(chunks_fold(text, acc, false) == chunks_fold(text.drop_first(), a0, false));
            assert(chunks_fold(seq![c], a0, false) == chunks_fold(
                seq![c].drop_first(),
                a1,
                false,
            ));
            assert(chunks_fold(Seq::<char>::empty(), a1, false) == (a1, false));
        },
        _ => {
            assert(false);
        },
    }
}

} // verus!

verus! {

/// The chunk patterns of a whole side.
pub open spec fn side_patterns(v: Seq<Operator>) -> Seq<Seq<char>>
    decreases v.len(),
{
    if v.len() == 0 {
        Seq::empty()
    } else {
        side_patterns(v.drop_last()) + token_pattern(v.last())
    }
}

/// Lexing a whole rendered side appends exactly its patterns.
proof fn lemma_side_render(v: Seq<Operator>, acc: Seq<Seq<char>>)
    requires
        admissible_side(v),
        acc.len() >= 1,
    ensures
        chunks_fold(side_text(v), acc, false) == (acc + side_patterns(v), false),
    decreases v.len(),
{
    if v.len() == 0 {
        assert(side_text(v) =~= Seq::<char>::empty());
        assert(acc + side_patterns(v) =~= acc);
    } else {
        let h = v.drop_last();
        assert(admissible_side(h)) by {
            assert(forall|i: int| 0 <= i < h.len() ==> h[i] == #[trigger] v[i]);
        }
        lemma_side_render(h, acc);
        assert(admissible_token(v.last()));
        lemma_fold_append(side_text(h), " "@ + spec_symbol(v.last()), acc, false);
        assert(side_text(v) =~= side_text(h) + (" "@ + spec_symbol(v.last())));
        lemma_token_render(v.last(), acc + side_patterns(h));
        assert((acc + side_patterns(h)) + token_pattern(v.last()) =~= acc + side_patterns(v));
        assert((acc + side_patterns(h)).len() >= 1);
    }
}

/// Trimming and filtering distributes over concatenation.
proof fn lemma_trim_filter_append(a: Seq<Seq<char>>, b: Seq<Seq<char>>)
    ensures
        trim_filter(a + b) == trim_filter(a) + trim_filter(b),
    decreases b.len(),
{
    if b.len() == 0 {
        assert(a + b =~= a);
        assert(trim_filter(a) + trim_filter(b) =~= trim_filter(a));
    } else {
        assert((a + b).drop_last() =~= a + b.drop_last());
        assert((a + b).last() == b.last());
        lemma_trim_filter_append(a, b.drop_last());
        assert(trim_filter(a) + trim_filter(b.drop_last()) + (if spec_trim(b.last()).len() > 0 {
            seq![spec_trim(b.last())]
        } else {
            Seq::<Seq<char>>::empty()
        }) =~= trim_filter(a) + trim_filter(b));
    }
}

/// A text without whitespace at either end trims to itself.
proof fn lemma_trim_id(s: Seq<char>)
    requires
        s.len() > 0,
        !is_space(s[0]),
        !is_space(s.last()),
    ensures
        spec_trim(s) == s,
{
}

/// A token's pattern survives trimming and filtering as its bare text.
proof fn lemma_pattern_filter(op: Operator)
    requires
        admissible_token(op) || op == Operator::Then,
    ensures
        trim_filter(token_pattern(op)) == seq![spec_symbol(op)],
{
    reveal_strlit("&");
    reveal_strlit("|");
    reveal_strlit("^");
    reveal_strlit("=");
    reveal_strlit(">>");
    reveal_strlit("!");
    reveal_strlit("=>");
    reveal_strlit("(");
    reveal_strlit(")");
    let sym = spec_symbol(op);
    assert(sym.len() > 0 && !is_space(sym[0]) && !is_space(sym.last())) by {
        match op {
            Operator::Var(c) => {
                assert(sym =~= seq![c]);
            },
            _ => {},
        }
    }
    lemma_trim_id(sym);
    assert(spec_trim(Seq::<char>::empty()) == Seq::<char>::empty());
    let nil = Seq::<Seq<char>>::empty();
    assert(trim_filter(nil) == nil);
    let e1 = seq![Seq::<char>::empty()];
    assert(e1.drop_last() =~= nil);
    assert(e1.last() =~= Seq::<char>::empty());
    assert(trim_filter(e1) == trim_filter(nil) + nil);
    assert(trim_filter(e1) =~= nil);
    match op {
        Operator::Var(c) => {
            let p = token_pattern(op);
            assert(p =~= seq![sym]);
            assert(p.drop_last() =~= nil);
            assert(p.last() == sym);
            assert(trim_filter(p) == trim_filter(nil) + seq![sym]);
            assert(trim_filter(p) =~= seq![sym]);
        },
        Operator::Equal => {
            let p = token_pattern(op);
            assert(p.drop_last() =~= e1);
            assert(p.last() == sym);
            assert(trim_filter(p) == trim_filter(e1) + seq![sym]);
            assert(trim_filter(p) =~= seq![sym]);
        },
        _ => {
            let p = token_pattern(op);
            let q2 = p.drop_last();
            assert(p.last() =~= Seq::<char>::empty());
            assert(q2.last() == sym);
            assert(q2.drop_last() =~= e1);
            assert(trim_filter(q2) == trim_filter(e1) + seq![sym]);
            assert(trim_filter(q2) =~= seq![sym]);
            assert(trim_filter(p) == trim_filter(q2) + nil);
            assert(trim_filter(p) =~= seq![sym]);
        },
    }
}

/// The texts that a whole side's patterns survive as: its tokens' texts.
pub open spec fn side_symbols(v: Seq<Operator>) -> Seq<Seq<char>> {
    v.map_values(|op: Operator| spec_symbol(op))
}

/// A side's patterns trim and filter to exactly its tokens' texts.
proof fn lemma_side_filter(v: Seq<Operator>)
    requires
        admissible_side(v),
    ensures
        trim_filter(side_patterns(v)) == side_symbols(v),
    decreases v.len(),
{
    if v.len() == 0 {
        assert(side_symbols(v) =~= Seq::<Seq<char>>::empty());
    } else {
        let h = v.drop_last();
        assert(admissible_side(h)) by {
            assert(forall|i: int| 0 <= i < h.len() ==> h[i] == #[trigger] v[i]);
        }
        lemma_side_filter(h);
        assert(admissible_token(v.last()));
        lemma_trim_filter_append(side_patterns(h), token_pattern(v.last()));
        lemma_pattern_filter(v.last());
        assert(side_symbols(h) + seq![spec_symbol(v.last())] =~= side_symbols(v));
    }
}

} // verus!

verus! {

/// The token a rule chunk denotes when re-parsed: an operator spelling maps
/// to its operator, anything else to a fact reference named by its first
/// character.  This mapping does not depend on the knowledge base, because
/// aliases are at least two characters long and fact names exactly one.
pub open spec fn chunk_token_pure(t: Seq<char>) -> Operator {
    match crate::models::token_of(t) {
        Some(op) => op,
        None => Operator::Var(t[0]),
    }
}

/// Re-parsing a token's text recovers the token.
proof fn lemma_symbol_token(op: Operator)
    requires
        admissible_token(op) || op == Operator::Then,
    ensures
        chunk_token_pure(spec_symbol(op)) == op,
{
    broadcast use vstd::string::group_string_axioms;

    reveal_strlit("and");
    reveal_strlit("&");
    reveal_strlit("+");
    reveal_strlit("or");
    reveal_strlit("|");
    reveal_strlit("xor");
    reveal_strlit("^");
    reveal_strlit("equal");
    reveal_strlit("=");
    reveal_strlit("material");
    reveal_strlit(">>");
    reveal_strlit("not");
    reveal_strlit("!");
    reveal_strlit("then");
    reveal_strlit("=>");
    reveal_strlit("if-and-only-if");
    reveal_strlit("<=>");
    reveal_strlit("(");
    reveal_strlit(")");
    match op {
        Operator::Var(c) => {
            assert(spec_symbol(op) =~= seq![c]);
            assert(is_alpha(c));
            assert(seq![c].len() == 1);
            assert(seq![c][0] == c);
            assert(c != '&' && c != '+' && c != '|' && c != '^' && c != '=' && c != '!' && c
                != '(' && c != ')');
            assert(!(seq![c] == "&"@) && !(seq![c] == "+"@) && !(seq![c] == "|"@) && !(seq![c]
                == "^"@) && !(seq![c] == "="@) && !(seq![c] == "!"@) && !(seq![c] == "("@) && !(
            seq![c] == ")"@));
            assert(crate::models::token_of(seq![c]) is None);
            assert(chunk_token_pure(seq![c]) == Operator::Var(c));
            assert(spec_symbol(op) == seq![c]);
        },
        Operator::And => {
            assert(spec_symbol(op) == "&"@);
            assert(!("&"@ == "and"@));
            assert(crate::models::token_of("&"@) is Some);
            assert(chunk_token_pure(spec_symbol(op)) == op);
        },
        Operator::Or => {
            assert(spec_symbol(op) == "|"@);
            assert(!("|"@ == "and"@)) by {
                assert("|"@.len() != "and"@.len());
            }
            assert(!("|"@ == "&"@)) by {
                assert("|"@[0] != "&"@[0]);
            }
            assert(!("|"@ == "+"@)) by {
                assert("|"@[0] != "+"@[0]);
            }
            assert(!("|"@ == "or"@)) by {
                assert("|"@.len() != "or"@.len());
            }
            assert(crate::models::token_of("|"@) is Some);
            assert(chunk_token_pure(spec_symbol(op)) == op);
        },
        Operator::Xor => {
            assert(spec_symbol(op) == "^"@);
            assert(!("^"@ == "and"@)) by {
                assert("^"@.len() != "and"@.len());
            }
            assert(!("^"@ == "&"@)) by {
                assert("^"@[0] != "&"@[0]);
            }
            assert(!("^"@ == "+"@)) by {
                assert("^"@[0] != "+"@[0]);
            }
            assert(!("^"@ == "or"@)) by {
                assert("^"@.len() != "or"@.len());
            }
            assert(!("^"@ == "|"@)) by {
                assert("^"@[0] != "|"@[0]);
            }
            assert(!("^"@ == "xor"@)) by {
                assert("^"@.len() != "xor"@.len());
            }
            assert(crate::models::token_of("^"@) is Some);
            assert(chunk_token_pure(spec_symbol(op)) == op);
        },
        Operator::Equal => {
            assert(spec_symbol(op) == "="@);
            assert(!("="@ == "and"@)) by {
                assert("="@.len() != "and"@.len());
            }
            assert(!("="@ == "&"@)) by {
                assert("="@[0] != "&"@[0]);
            }
            assert(!("="@ == "+"@)) by {
                assert("="@[0] != "+"@[0]);
            }
            assert(!("="@ == "or"@)) by {
                assert("="@.len() != "or"@.len());
            }
            assert(!("="@ == "|"@)) by {
                assert("="@[0] != "|"@[0]);
            }
            assert(!("="@ == "xor"@)) by {
                assert("="@.len() != "xor"@.len());
            }
            assert(!("="@ == "^"@)) by {
                assert("="@[0] != "^"@[0]);
            }
            assert(!("="@ == "equal"@)) by {
                assert("="@.len() != "equal"@.len());
            }
            assert(crate::models::token_of("="@) is Some);
            assert(chunk_token_pure(spec_symbol(op)) == op);
        },
        Operator::Material => {
            assert(spec_symbol(op) == ">>"@);
            assert(!(">>"@ == "and"@)) by {
                assert(">>"@.len() != "and"@.len());
            }
            assert(!(">>"@ == "&"@)) by {
                assert(">>"@.len() != "&"@.len());
            }
            assert(!(">>"@ == "+"@)) by {
                assert(">>"@.len() != "+"@.len());
            }
            assert(!(">>"@ == "or"@)) by {
                assert(">>"@[0] != "or"@[0]);
            }
            assert(!(">>"@ == "|"@)) by {
                assert(">>"@.len() != "|"@.len());
            }
            assert(!(">>"@ == "xor"@)) by {
                assert(">>"@.len() != "xor"@.len());
            }
            assert(!(">>"@ == "^"@)) by {
                assert(">>"@.len() != "^"@.len());
            }
            assert(!(">>"@ == "equal"@)) by {
                assert(">>"@.len() != "equal"@.len());
            }
            assert(!(">>"@ == "="@)) by {
                assert(">>"@.len() != "="@.len());
            }
            assert(!(">>"@ == "material"@)) by {
                assert(">>"@.len() != "material"@.len());
            }
            assert(crate::models::token_of(">>"@) is Some);
            assert(chunk_token_pure(spec_symbol(op)) == op);
        },
        Operator::Not => {
            assert(spec_symbol(op) == "!"@);
            assert(!("!"@ == "and"@)) by {
                assert("!"@.len() != "and"@.len());
            }
            assert(!("!"@ == "&"@)) by {
                assert("!"@[0] != "&"@[0]);
            }
            assert(!("!"@ == "+"@)) by {
                assert("!"@[0] != "+"@[0]);
            }
            assert(!("!"@ == "or"@)) by {
                assert("!"@.len() != "or"@.len());
            }
            assert(!("!"@ == "|"@)) by {
                assert("!"@[0] != "|"@[0]);
            }
            assert(!("!"@ == "xor"@)) by {
                assert("!"@.len() != "xor"@.len());
            }
            assert(!("!"@ == "^"@)) by {
                assert("!"@[0] != "^"@[0]);
            }
            assert(!("!"@ == "equal"@)) by {
                assert("!"@.len() != "equal"@.len());
            }
            assert(!("!"@ == "="@)) by {
                assert("!"@[0] != "="@[0]);
            }
            assert(!("!"@ == "material"@)) by {
                assert("!"@.len() != "material"@.len());
            }
            assert(!("!"@ == ">>"@)) by {
                assert("!"@.len() != ">>"@.len());
            }
            assert(!("!"@ == "not"@)) by {
                assert("!"@.len() != "not"@.len());
            }
            assert(crate::models::token_of("!"@) is Some);
            assert(chunk_token_pure(spec_symbol(op)) == op);
        },
        Operator::Then => {
            assert(spec_symbol(op) == "=>"@);
            assert(!("=>"@ == "and"@)) by {
                assert("=>"@.len() != "and"@.len());
            }
            assert(!("=>"@ == "&"@)) by {
                assert("=>"@.len() != "&"@.len());
            }
            assert(!("=>"@ == "+"@)) by {
                assert("=>"@.len() != "+"@.len());
            }
            assert(!("=>"@ == "or"@)) by {
                assert("=>"@[0] != "or"@[0]);
            }
            assert(!("=>"@ == "|"@)) by {
                assert("=>"@.len() != "|"@.len());
            }
            assert(!("=>"@ == "xor"@)) by {
                assert("=>"@.len() != "xor"@.len());
            }
            assert(!("=>"@ == "^"@)) by {
                assert("=>"@.len() != "^"@.len());
            }
            assert(!("=>"@ == "equal"@)) by {
                assert("=>"@.len() != "equal"@.len());
            }
            assert(!("=>"@ == "="@)) by {
                assert("=>"@.len() != "="@.len());
            }
            assert(!("=>"@ == "material"@)) by {
                assert("=>"@.len() != "material"@.len());
            }
            assert(!("=>"@ == ">>"@)) by {
                assert("=>"@[0] != ">>"@[0]);
            }
            assert(!("=>"@ == "not"@)) by {
                assert("=>"@.len() != "not"@.len());
            }
            assert(!("=>"@ == "!"@)) by {
                assert("=>"@.len() != "!"@.len());
            }
            assert(!("=>"@ == "then"@)) by {
                assert("=>"@.len() != "then"@.len());
            }
            assert(crate::models::token_of("=>"@) is Some);
            assert(chunk_token_pure(spec_symbol(op)) == op);
        },
        Operator::Parentesis(true) => {
            assert(spec_symbol(op) == "("@);
            assert(!("("@ == "and"@)) by {
                assert("("@.len() != "and"@.len());
            }
            assert(!("("@ == "&"@)) by {
                assert("("@[0] != "&"@[0]);
            }
            assert(!("("@ == "+"@)) by {
                assert("("@[0] != "+"@[0]);
            }
            assert(!("("@ == "or"@)) by {
                assert("("@.len() != "or"@.len());
            }
            assert(!("("@ == "|"@)) by {
                assert("("@[0] != "|"@[0]);
            }
            assert(!("("@ == "xor"@)) by {
                assert("("@.len() != "xor"@.len());
            }
            assert(!("("@ == "^"@)) by {
                assert("("@[0] != "^"@[0]);
            }
            assert(!("("@ == "equal"@)) by {
                assert("("@.len() != "equal"@.len());
            }
            assert(!("("@ == "="@)) by {
                assert("("@[0] != "="@[0]);
            }
            assert(!("("@ == "material"@)) by {
                assert("("@.len() != "material"@.len());
            }
            assert(!("("@ == ">>"@)) by {
                assert("("@.len() != ">>"@.len());
            }
            assert(!("("@ == "not"@)) by {
                assert("("@.len() != "not"@.len());
            }
            assert(!("("@ == "!"@)) by {
                assert("("@[0] != "!"@[0]);
            }
            assert(!("("@ == "then"@)) by {
                assert("("@.len() != "then"@.len());
            }
            assert(!("("@ == "=>"@)) by {
                assert("("@.len() != "=>"@.len());
            }
            assert(!("("@ == "if-and-only-if"@)) by {
                assert("("@.len() != "if-and-only-if"@.len());
            }
            assert(!("("@ == "<=>"@)) by {
                assert("("@.len() != "<=>"@.len());
            }
            assert(crate::models::token_of("("@) is Some);
            assert(chunk_token_pure(spec_symbol(op)) == op);
        },
        Operator::Parentesis(false) => {
            assert(spec_symbol(op) == ")"@);
            assert(!(")"@ == "and"@)) by {
                assert(")"@.len() != "and"@.len());
            }
            assert(!(")"@ == "&"@)) by {
                assert(")"@[0] != "&"@[0]);
            }
            assert(!(")"@ == "+"@)) by {
                assert(")"@[0] != "+"@[0]);
            }
            assert(!(")"@ == "or"@)) by {
                assert(")"@.len() != "or"@.len());
            }
            assert(!(")"@ == "|"@)) by {
                assert(")"@[0] != "|"@[0]);
            }
            assert(!(")"@ == "xor"@)) by {
                assert(")"@.len() != "xor"@.len());
            }
            assert(!(")"@ == "^"@)) by {
                assert(")"@[0] != "^"@[0]);
            }
            assert(!(")"@ == "equal"@)) by {
                assert(")"@.len() != "equal"@.len());
            }
            assert(!(")"@ == "="@)) by {
                assert(")"@[0] != "="@[0]);
            }
            assert(!(")"@ == "material"@)) by {
                assert(")"@.len() != "material"@.len());
            }
            assert(!(")"@ == ">>"@)) by {
                assert(")"@.len() != ">>"@.len());
            }
            assert(!(")"@ == "not"@)) by {
                assert(")"@.len() != "not"@.len());
            }
            assert(!(")"@ == "!"@)) by {
                assert(")"@[0] != "!"@[0]);
            }
            assert(!(")"@ == "then"@)) by {
                assert(")"@.len() != "then"@.len());
            }
            assert(!(")"@ == "=>"@)) by {
                assert(")"@.len() != "=>"@.len());
            }
            assert(!(")"@ == "if-and-only-if"@)) by {
                assert(")"@.len() != "if-and-only-if"@.len());
            }
            assert(!(")"@ == "<=>"@)) by {
                assert(")"@.len() != "<=>"@.len());
            }
            assert(!(")"@ == "("@)) by {
                assert(")"@[0] != "("@[0]);
            }
            assert(crate::models::token_of(")"@) is Some);
            assert(chunk_token_pure(spec_symbol(op)) == op);
        },
        _ => {},
    }
}

/// The round-trip law of rule display: lexing the display text of a rule's
/// token sequence yields exactly one chunk per token, and mapping each
/// chunk back to its token recovers the original sequence, separator
/// included.  Since the two sides are then reduced and built by functions
/// of the tokens alone, the re-parsed antecedent and consequent trees are
/// structurally equal to the original ones.
pub proof fn lemma_display_round_trip(a: Seq<Operator>, b: Seq<Operator>)
    requires
        admissible_side(a),
        admissible_side(b),
    ensures
        spec_line_to_chunk(spec_rule_text(a, b, false)) is Ok,
        spec_line_to_chunk(spec_rule_text(a, b, false))->Ok_0.map_values(
            |t: Seq<char>| chunk_token_pure(t),
        ) == a + seq![Operator::Then] + b,
{
    reveal_strlit(" ");
    reveal_strlit("=>");
    reveal_strlit(" =>");
    let text = spec_rule_text(a, b, false);
    let s1 = side_text(a);
    let s2 = " "@ + spec_symbol(Operator::Then);
    let s3 = side_text(b);
    assert(" =>"@ =~= s2);
    assert(text =~= (s1 + s2) + s3);
    let init = seq![Seq::<char>::empty()];
    lemma_side_render(a, init);
    let acc1 = init + side_patterns(a);
    assert(acc1.len() >= 1);
    lemma_token_render(Operator::Then, acc1);
    let acc2 = acc1 + token_pattern(Operator::Then);
    assert(acc2.len() >= 1);
    lemma_side_render(b, acc2);
    let acc3 = acc2 + side_patterns(b);
    lemma_fold_append(s1, s2, init, false);
    lemma_fold_append(s1 + s2, s3, init, false);
    assert(chunks_fold(text, init, false) == (acc3, false));
    // Trim and filter: the separating empties disappear, each token's text
    // stays.
    let nil = Seq::<Seq<char>>::empty();
    assert(spec_trim(Seq::<char>::empty()) == Seq::<char>::empty());
    assert(init.drop_last() =~= nil);
    assert(trim_filter(nil) == nil);
    assert(trim_filter(init) == trim_filter(nil) + nil);
    assert(trim_filter(init) =~= nil);
    lemma_trim_filter_append(init, side_patterns(a));
    lemma_trim_filter_append(acc1, token_pattern(Operator::Then));
    lemma_trim_filter_append(acc2, side_patterns(b));
    lemma_side_filter(a);
    lemma_side_filter(b);
    lemma_pattern_filter(Operator::Then);
    let chunks = trim_filter(acc3);
    assert(chunks =~= side_symbols(a) + seq![spec_symbol(Operator::Then)] + side_symbols(b));
    assert(spec_line_to_chunk(text) == Ok::<Seq<Seq<char>>, Seq<char>>(chunks));
    // Each chunk maps back to the token it came from.
    let toks = chunks.map_values(|t: Seq<char>| chunk_token_pure(t));
    assert forall|i: int| 0 <= i < toks.len() implies toks[i] == (a + seq![Operator::Then]
        + b)[i] by {
        if i < a.len() {
            assert(chunks[i] == spec_symbol(a[i]));
            lemma_symbol_token(a[i]);
        } else if i == a.len() {
            assert(chunks[i] == spec_symbol(Operator::Then));
            lemma_symbol_token(Operator::Then);
        } else {
            assert(chunks[i] == spec_symbol(b[i - a.len() - 1]));
            lemma_symbol_token(b[i - a.len() - 1]);
        }
    }
    assert(toks =~= a + seq![Operator::Then] + b);
}

} // verus!
