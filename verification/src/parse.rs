//! The prefix-expression parser: whitespace-separated tokens, each an
//! operator symbol or a base-10 signed integer literal, read
//! left-to-right by a recursive reader. Malformed input, unknown
//! tokens and leftover tokens all yield no tree.

use vstd::prelude::*;

use crate::expression::{children_model, lemma_children_model, Expression, ExpressionTreeNode, ExprModel, Operator};

verus! {

/// The characters that separate tokens.
pub open spec fn is_space(c: char) -> bool {
    c == ' ' || c == '\t' || c == '\n' || c == '\r'
}

/// Splitting into whitespace-separated tokens, reading left to right
/// with `cur` the token under construction.
pub open spec fn tokenize_acc(s: Seq<char>, cur: Seq<char>) -> Seq<Seq<char>>
    decreases s.len(),
{
    if s.len() == 0 {
        if cur.len() == 0 {
            Seq::empty()
        } else {
            seq![cur]
        }
    } else if is_space(s[0]) {
        if cur.len() == 0 {
            tokenize_acc(s.drop_first(), Seq::empty())
        } else {
            seq![cur] + tokenize_acc(s.drop_first(), Seq::empty())
        }
    } else {
        tokenize_acc(s.drop_first(), cur.push(s[0]))
    }
}

/// The tokens of an expression string.
pub open spec fn tokens_of(s: Seq<char>) -> Seq<Seq<char>> {
    tokenize_acc(s, Seq::empty())
}

/// The operator a one-symbol token denotes, if any.
pub open spec fn operator_token(t: Seq<char>) -> Option<Operator> {
    if t.len() == 1 && t[0] == '+' {
        Some(Operator::Add)
    } else if t.len() == 1 && t[0] == '-' {
        Some(Operator::Sub)
    } else if t.len() == 1 && t[0] == '*' {
        Some(Operator::Mul)
    } else if t.len() == 1 && t[0] == '/' {
        Some(Operator::Div)
    } else {
        None
    }
}

pub open spec fn is_digit(c: char) -> bool {
    '0' <= c && c <= '9'
}

pub open spec fn digit_val(c: char) -> int {
    c as int - '0' as int
}

pub open spec fn all_digits(s: Seq<char>) -> bool {
    forall|i: int| 0 <= i < s.len() ==> is_digit(#[trigger] s[i])
}

/// The value of a string of decimal digits, most significant first.
pub open spec fn digits_val(s: Seq<char>) -> int
    decreases s.len(),
{
    if s.len() == 0 {
        0
    } else {
        digits_val(s.drop_last()) * 10 + digit_val(s.last())
    }
}

/// The unbounded value a token denotes as a signed decimal integer:
/// an optional sign followed by at least one digit.
pub open spec fn int_token_value(t: Seq<char>) -> Option<int> {
    if t.len() >= 1 && (t[0] == '-' || t[0] == '+') {
        let d = t.drop_first();
        if d.len() >= 1 && all_digits(d) {
            if t[0] == '-' {
                Some(-digits_val(d))
            } else {
                Some(digits_val(d))
            }
        } else {
            None
        }
    } else if t.len() >= 1 && all_digits(t) {
        Some(digits_val(t))
    } else {
        None
    }
}

/// The literal a token denotes, if it is a decimal integer that fits
/// the wire's 64-bit signed range.
pub open spec fn literal_value(t: Seq<char>) -> Option<i64> {
    match int_token_value(t) {
        Some(v) => if i64::MIN <= v <= i64::MAX {
            Some(v as i64)
        } else {
            None
        },
        None => None,
    }
}

/// One step of the recursive reader at token `i`: a literal token is
/// one whole expression; an operator token is followed by exactly two
/// sub-expressions. Returns the parsed tree and the position after it.
/// The fuel only bounds the recursion; any fuel beyond the number of
/// remaining tokens gives the same answer (`lemma_parse_rec_fuel`).
pub open spec fn parse_rec(ts: Seq<Seq<char>>, i: int, fuel: nat) -> Option<(ExprModel, int)>
    decreases fuel,
{
    if fuel == 0 || i < 0 || i >= ts.len() {
        None
    } else {
        match operator_token(ts[i]) {
            Some(op) => match parse_rec(ts, i + 1, (fuel - 1) as nat) {
                Some((left, j)) => match parse_rec(ts, j, (fuel - 1) as nat) {
                    Some((right, k)) => Some((ExprModel::Op(op, seq![left, right]), k)),
                    None => None,
                },
                None => None,
            },
            None => match literal_value(ts[i]) {
                Some(v) => Some((ExprModel::Val(v), i + 1)),
                None => None,
            },
        }
    }
}

/// What parsing an expression string yields: the first complete
/// expression, provided it uses every token.
pub open spec fn parse_spec(s: Seq<char>) -> Option<ExprModel> {
    let ts = tokens_of(s);
    match parse_rec(ts, 0, (ts.len() + 1) as nat) {
        Some((m, j)) => if j == ts.len() {
            Some(m)
        } else {
            None
        },
        None => None,
    }
}

/// A digit string's value is never negative.
pub proof fn lemma_digits_val_nonneg(s: Seq<char>)
    requires
        all_digits(s),
    ensures
        digits_val(s) >= 0,
    decreases s.len(),
{
    if s.len() > 0 {
        assert(all_digits(s.drop_last())) by {
            assert(forall|i: int|
                0 <= i < s.drop_last().len() ==> s.drop_last()[i] == #[trigger] s[i]);
        }
        lemma_digits_val_nonneg(s.drop_last());
    }
}

/// Reading more digits can only grow the value, at least tenfold per
/// digit already read.
pub proof fn lemma_digits_val_prefix(s: Seq<char>, m: int)
    requires
        all_digits(s),
        0 <= m < s.len(),
    ensures
        digits_val(s) >= digits_val(s.take(m)) * 10,
        digits_val(s) >= digits_val(s.take(m)),
    decreases s.len(),
{
    assert(all_digits(s.drop_last())) by {
        assert(forall|i: int| 0 <= i < s.drop_last().len() ==> s.drop_last()[i] == #[trigger] s[i]);
    }
    lemma_digits_val_nonneg(s);
    lemma_digits_val_nonneg(s.drop_last());
    if m == s.len() - 1 {
        assert(s.take(m) =~= s.drop_last());
        assert(digit_val(s.last()) >= 0);
    } else {
        lemma_digits_val_prefix(s.drop_last(), m);
        assert(s.drop_last().take(m) =~= s.take(m));
        let p = digits_val(s.take(m));
        assert(all_digits(s.take(m))) by {
            assert(forall|i: int| 0 <= i < m ==> s.take(m)[i] == #[trigger] s[i]);
        }
        lemma_digits_val_nonneg(s.take(m));
        assert(digits_val(s) == digits_val(s.drop_last()) * 10 + digit_val(s.last()));
        assert(digits_val(s.drop_last()) >= p * 10);
        assert(digits_val(s) >= p * 10);
    }
}

/// A successful read always makes progress and never passes the end.
pub proof fn lemma_parse_rec_progress(ts: Seq<Seq<char>>, i: int, fuel: nat)
    ensures
        parse_rec(ts, i, fuel) matches Some((m, j)) ==> i < j <= ts.len(),
    decreases fuel,
{
    if fuel > 0 && 0 <= i < ts.len() {
        if operator_token(ts[i]) is Some {
            lemma_parse_rec_progress(ts, i + 1, (fuel - 1) as nat);
            match parse_rec(ts, i + 1, (fuel - 1) as nat) {
                Some(res) => {
                    lemma_parse_rec_progress(ts, res.1, (fuel - 1) as nat);
                },
                None => {},
            }
        }
    }
}

/// Fuel at least one more than the remaining tokens is enough: adding
/// more does not change the answer.
pub proof fn lemma_parse_rec_fuel(ts: Seq<Seq<char>>, i: int, f1: nat, f2: nat)
    requires
        ts.len() - i < f1 <= f2,
    ensures
        parse_rec(ts, i, f1) == parse_rec(ts, i, f2),
    decreases f1,
{
    if 0 <= i < ts.len() {
        if operator_token(ts[i]) is Some {
            lemma_parse_rec_fuel(ts, i + 1, (f1 - 1) as nat, (f2 - 1) as nat);
            match parse_rec(ts, i + 1, (f1 - 1) as nat) {
                Some(res) => {
                    lemma_parse_rec_progress(ts, i + 1, (f1 - 1) as nat);
                    lemma_parse_rec_fuel(ts, res.1, (f1 - 1) as nat, (f2 - 1) as nat);
                },
                None => {},
            }
        }
    }
}

/// Reads a token as a signed 64-bit decimal literal: an optional sign,
/// then digits; anything else, or a value outside the range, is no
/// literal.
fn parse_literal(t: &Vec<char>) -> (r: Option<i64>)
    ensures
        r == literal_value(t@),
{
    let n = t.len();
    if n == 0 {
        return None;
    }
    let c0 = t[0];
    let neg = c0 == '-';
    let start: usize = if c0 == '-' || c0 == '+' {
        1
    } else {
        0
    };
    if start == n {
        return None;
    }
    let ghost digits = t@.subrange(start as int, n as int);
    let mut mag: u64 = 0;
    let mut i = start;
    while i < n
        invariant
            start <= i <= n,
            n == t@.len(),
            start < n,
            start <= 1,
            digits == t@.subrange(start as int, n as int),
            all_digits(t@.subrange(start as int, i as int)),
            mag == digits_val(t@.subrange(start as int, i as int)),
            (start == 1) == (t@[0] == '-' || t@[0] == '+'),
            neg == (t@[0] == '-'),
        decreases n - i,
    {
        let c = t[i];
        if c < '0' || c > '9' {
            proof {
                assert(!is_digit(t@[i as int]));
                assert(digits[i - start] == t@[i as int]);
                assert(!all_digits(digits));
                if start == 1 {
                    assert(t@.drop_first() =~= digits);
                }
                assert(int_token_value(t@) is None);
            }
            return None;
        }
        let u = c as u32;
        proof {
            assert(is_digit(t@[i as int]));
        }
        if mag > 922337203685477580 {
            proof {
                if all_digits(digits) {
                    lemma_digits_val_prefix(digits, i - start);
                    assert(digits.take(i - start) =~= t@.subrange(start as int, i as int));
                    assert(digits_val(digits) >= mag * 10);
                    assert(digits_val(digits) > i64::MAX);
                    assert(-digits_val(digits) < i64::MIN);
                }
                if start == 1 {
                    assert(t@.drop_first() =~= digits);
                } else {
                    assert(t@ =~= digits);
                }
                assert(literal_value(t@) is None);
            }
            return None;
        }
        mag = mag * 10 + ((u - 48) as u64);
        proof {
            let sub1 = t@.subrange(start as int, i + 1);
            assert(sub1.drop_last() =~= t@.subrange(start as int, i as int));
            assert(sub1.last() == t@[i as int]);
            assert(digit_val(t@[i as int]) == u - 48);
            assert(all_digits(sub1)) by {
                assert(forall|j: int|
                    0 <= j < i + 1 - start ==> sub1[j] == #[trigger] t@[start + j]);
            }
        }
        i = i + 1;
    }
    proof {
        assert(t@.subrange(start as int, i as int) =~= digits);
        lemma_digits_val_nonneg(digits);
        if start == 1 {
            assert(t@.drop_first() =~= digits);
        } else {
            assert(t@ =~= digits);
        }
    }
    if neg {
        if mag > 9223372036854775808u64 {
            None
        } else if mag == 9223372036854775808u64 {
            Some(i64::MIN)
        } else {
            Some(-(mag as i64))
        }
    } else {
        if mag > 9223372036854775807u64 {
            None
        } else {
            Some(mag as i64)
        }
    }
}

/// Splits the expression into whitespace-separated tokens.
fn tokenize(s: &str) -> (tokens: Vec<Vec<char>>)
    ensures
        tokens@.map_values(|t: Vec<char>| t@) == tokens_of(s@),
{
    let n = s.unicode_len();
    let mut tokens: Vec<Vec<char>> = Vec::new();
    let mut cur: Vec<char> = Vec::new();
    let mut i: usize = 0;
    proof {
        assert(s@.skip(0) =~= s@);
        assert(tokens@.map_values(|t: Vec<char>| t@) =~= Seq::<Seq<char>>::empty());
    }
    while i < n
        invariant
            n == s@.len(),
            i <= n,
            tokens_of(s@) == tokens@.map_values(|t: Vec<char>| t@) + tokenize_acc(
                s@.skip(i as int),
                cur@,
            ),
        decreases n - i,
    {
        let ghost done = tokens@.map_values(|t: Vec<char>| t@);
        let c = s.get_char(i);
        proof {
            assert(s@.skip(i as int)[0] == s@[i as int]);
            assert(s@.skip(i as int).drop_first() =~= s@.skip(i + 1));
        }
        if c == ' ' || c == '\t' || c == '\n' || c == '\r' {
            proof {
                assert(is_space(s@[i as int]));
            }
            if cur.len() > 0 {
                let finished = cur;
                cur = Vec::new();
                tokens.push(finished);
                proof {
                    assert(tokens@.map_values(|t: Vec<char>| t@) =~= done.push(finished@));
                    assert(cur@ =~= Seq::<char>::empty());
                    assert(done.push(finished@) + tokenize_acc(s@.skip(i + 1), cur@) =~= done + (
                    seq![finished@] + tokenize_acc(s@.skip(i + 1), cur@)));
                }
            } else {
                proof {
                    assert(cur@ =~= Seq::<char>::empty());
                }
            }
        } else {
            cur.push(c);
        }
        i = i + 1;
    }
    proof {
        assert(s@.skip(n as int) =~= Seq::<char>::empty());
    }
    if cur.len() > 0 {
        let ghost done = tokens@.map_values(|t: Vec<char>| t@);
        let finished = cur;
        tokens.push(finished);
        proof {
            assert(tokens@.map_values(|t: Vec<char>| t@) =~= done.push(finished@));
            assert(done.push(finished@) =~= done + seq![finished@]);
        }
    }
    tokens
}

/// Reads a token as one of the four operator symbols.
fn token_operator(t: &Vec<char>) -> (r: Option<Operator>)
    ensures
        r == operator_token(t@),
{
    if t.len() != 1 {
        return None;
    }
    match t[0] {
        '+' => Some(Operator::Add),
        '-' => Some(Operator::Sub),
        '*' => Some(Operator::Mul),
        '/' => Some(Operator::Div),
        _ => None,
    }
}

/// The recursive reader: consumes one complete expression starting at
/// token `i` and reports the position after it.
fn parse_node(tokens: &Vec<Vec<char>>, i: usize) -> (r: Option<(ExpressionTreeNode, usize)>)
    requires
        i <= tokens@.len(),
    ensures
        ({
            let ts = tokens@.map_values(|t: Vec<char>| t@);
            let sr = parse_rec(ts, i as int, (ts.len() - i + 1) as nat);
            match r {
                Some((n, j)) => (sr matches Some((m, sj)) && m == n.model() && sj == j && i < j
                    <= ts.len()),
                None => sr is None,
            }
        }),
    decreases tokens@.len() - i,
{
    let ghost ts = tokens@.map_values(|t: Vec<char>| t@);
    let ghost fuel = (ts.len() - i + 1) as nat;
    if i == tokens.len() {
        return None;
    }
    proof {
        assert(ts[i as int] == tokens@[i as int]@);
    }
    match token_operator(&tokens[i]) {
        Some(op) => {
            match parse_node(tokens, i + 1) {
                Some((left, j)) => {
                    match parse_node(tokens, j) {
                        Some((right, k)) => {
                            proof {
                                lemma_parse_rec_fuel(
                                    ts,
                                    j as int,
                                    (ts.len() - j + 1) as nat,
                                    (fuel - 1) as nat,
                                );
                            }
                            let mut children: Vec<ExpressionTreeNode> = Vec::new();
                            children.push(left);
                            children.push(right);
                            let node = ExpressionTreeNode::Expr(
                                Expression { operator: op, children },
                            );
                            proof {
                                let cs = node->Expr_0.children@;
                                assert(cs =~= seq![left, right]);
                                lemma_children_model(cs);
                                assert(children_model(cs) =~= seq![left.model(), right.model()]);
                            }
                            Some((node, k))
                        },
                        None => {
                            proof {
                                lemma_parse_rec_fuel(
                                    ts,
                                    j as int,
                                    (ts.len() - j + 1) as nat,
                                    (fuel - 1) as nat,
                                );
                            }
                            None
                        },
                    }
                },
                None => None,
            }
        },
        None => {
            match parse_literal(&tokens[i]) {
                Some(v) => Some((ExpressionTreeNode::Val(v), i + 1)),
                None => None,
            }
        },
    }
}

/// Parses a whitespace-separated prefix arithmetic expression. The
/// result is a pure function of the input string: exactly the tree
/// `parse_spec` denotes, and no tree when the input is malformed or
/// has leftover tokens.
pub fn parse(expression: &str) -> (r: Option<ExpressionTreeNode>)
    ensures
        r is Some <==> parse_spec(expression@) is Some,
        r matches Some(n) ==> parse_spec(expression@) == Some(n.model()),
{
    let tokens = tokenize(expression);
    let ghost ts = tokens@.map_values(|t: Vec<char>| t@);
    proof {
        lemma_parse_rec_fuel(ts, 0, (ts.len() + 1) as nat, (ts.len() + 1) as nat);
    }
    match parse_node(&tokens, 0) {
        Some((node, j)) => {
            if j == tokens.len() {
                Some(node)
            } else {
                None
            }
        },
        None => None,
    }
}

} // verus!
