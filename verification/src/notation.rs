//! Trees written as text, and the laws of parsing.
//!
//! [`written`] writes a tree with a pair of brackets round each operand that
//! is no number; [`render`] does so at run time. The laws say what the
//! parser makes of such texts, for all trees whose leaves hold numbers:
//!
//! - [`lemma_written_is_parsed`]: the text of a tree is parsed to that tree.
//! - [`lemma_two_operators`]: of two binary operators in a row the second
//!   takes the operand between them if and only if it binds more tightly
//!   than the first or both are `^`.
//! - [`lemma_negation_binds_first`]: a `-` in front takes one operand, and
//!   the negation is the left operand of the operator that follows.
//! - [`lemma_adjacent_groups`]: a group in brackets at once behind another
//!   one is multiplied with it.
//! - [`lemma_unclosed_group`], [`lemma_empty_text`] and
//!   [`lemma_no_first_token`]: a group that is not closed, the empty text
//!   and a text that begins with no token are errors, and which.
use vstd::prelude::*;
use vstd::string::StringExecFns;
use crate::ast::{Node, NodeView};
use crate::grammar::{
    advance, binary, combine, expect_token, expression, fold, group_end, invalid_character,
    is_operator, lemma_expression_unfolds, lemma_fold_unfolds, lemma_group_unfolds, parse_text,
    primary, takes, unable_to_parse, unexpected, Cursor, Outcome,
};
use crate::parser::ParseErrorView;
use crate::token::{OperPrec, TokenView};
use crate::tokenizer::{continues_numeral, is_digit, is_numeral, lex, numeral_end, symbol, Lexed};

verus! {

/// The character that stands for the binary operator `op`.
pub open spec fn sign(op: TokenView) -> char {
    match op {
        TokenView::Add => '+',
        TokenView::Subtract => '-',
        TokenView::Multiply => '*',
        TokenView::Divide => '/',
        _ => '^',
    }
}

/// The tree `t` as text: a number as it is, a negation as `-` and its
/// operand, a binary operation as its left operand, the operator and its
/// right operand.
pub open spec fn written(t: NodeView) -> Seq<char>
    decreases t, 0int,
{
    match t {
        NodeView::Number(text) => text,
        NodeView::Negative(e) => seq!['-'] + operand(*e),
        NodeView::Add(l, r) => operand(*l) + seq!['+'] + operand(*r),
        NodeView::Subtract(l, r) => operand(*l) + seq!['-'] + operand(*r),
        NodeView::Multiply(l, r) => operand(*l) + seq!['*'] + operand(*r),
        NodeView::Divide(l, r) => operand(*l) + seq!['/'] + operand(*r),
        NodeView::Caret(l, r) => operand(*l) + seq!['^'] + operand(*r),
    }
}

/// The tree `t` as an operand: a number as it is, any other tree in
/// brackets.
pub open spec fn operand(t: NodeView) -> Seq<char>
    decreases t, 1int,
{
    match t {
        NodeView::Number(text) => text,
        _ => seq!['('] + written(t) + seq![')'],
    }
}

/// Writes `tree` as text: [`written`].
pub fn render(tree: &Node) -> (text: String)
    ensures
        text@ == written(tree@),
    decreases tree, 0int,
{
    match tree {
        Node::Number(literal) => literal.clone(),
        Node::Negative(e) => {
            let mut text = String::new();
            text.push('-');
            text.append(render_operand(e).as_str());
            assert(text@ =~= written(tree@));
            text
        },
        Node::Add(l, r) => {
            let text = join(render_operand(l), '+', render_operand(r));
            assert(text@ =~= written(tree@));
            text
        },
        Node::Subtract(l, r) => {
            let text = join(render_operand(l), '-', render_operand(r));
            assert(text@ =~= written(tree@));
            text
        },
        Node::Multiply(l, r) => {
            let text = join(render_operand(l), '*', render_operand(r));
            assert(text@ =~= written(tree@));
            text
        },
        Node::Divide(l, r) => {
            let text = join(render_operand(l), '/', render_operand(r));
            assert(text@ =~= written(tree@));
            text
        },
        Node::Caret(l, r) => {
            let text = join(render_operand(l), '^', render_operand(r));
            assert(text@ =~= written(tree@));
            text
        },
    }
}

/// Writes `tree` as an operand: [`operand`].
fn render_operand(tree: &Node) -> (text: String)
    ensures
        text@ == operand(tree@),
    decreases tree, 1int,
{
    match tree {
        Node::Number(literal) => literal.clone(),
        _ => {
            let mut text = String::new();
            text.push('(');
            text.append(render(tree).as_str());
            text.push(')');
            assert(text@ =~= operand(tree@));
            text
        },
    }
}

/// `left`, the character `between`, and `right`.
fn join(left: String, between: char, right: String) -> (text: String)
    ensures
        text@ == left@ + seq![between] + right@,
{
    let mut text = left;
    text.push(between);
    text.append(right.as_str());
    assert(text@ =~= left@ + seq![between] + right@);
    text
}

/// The operator and the two operands of a binary operation; `None` for a
/// number and for a negation.
pub open spec fn operation(t: NodeView) -> Option<(TokenView, NodeView, NodeView)> {
    match t {
        NodeView::Add(l, r) => Some((TokenView::Add, *l, *r)),
        NodeView::Subtract(l, r) => Some((TokenView::Subtract, *l, *r)),
        NodeView::Multiply(l, r) => Some((TokenView::Multiply, *l, *r)),
        NodeView::Divide(l, r) => Some((TokenView::Divide, *l, *r)),
        NodeView::Caret(l, r) => Some((TokenView::Caret, *l, *r)),
        _ => None,
    }
}

/// The cursor of a parser that looks at the token which begins at `p`.
pub open spec fn looking_at(s: Seq<char>, p: int) -> Cursor {
    Cursor { token: lex(s, p).token->0, pos: lex(s, p).next }
}

/// The text ends at `q`, or a closing bracket stands there.
pub open spec fn closes(s: Seq<char>, q: int) -> bool {
    q == s.len() || (0 <= q < s.len() && s[q] == ')')
}

/// The text ends at `q`, or a binary operator or a closing bracket stands
/// there.
pub open spec fn goes_on(s: Seq<char>, q: int) -> bool {
    q == s.len() || (0 <= q < s.len() && (s[q] == ')' || s[q] == '+' || s[q] == '-' || s[q] == '*'
        || s[q] == '/' || s[q] == '^'))
}

/// A run of characters of a literal that ends at `to` ends there from
/// anywhere within.
proof fn lemma_run_ends(s: Seq<char>, from: int, to: int)
    requires
        0 <= from <= to <= s.len(),
        forall|i: int| from <= i < to ==> continues_numeral(#[trigger] s[i]),
        to < s.len() ==> !continues_numeral(s[to]),
    ensures
        numeral_end(s, from) == to,
    decreases to - from,
{
    if from < to {
        lemma_run_ends(s, from + 1, to);
    }
}

/// A numeral that stands in `s` from `p` to `q`, with no character of a
/// literal and no opening bracket behind it, is read as one token.
proof fn lemma_lex_numeral_at(s: Seq<char>, p: int, q: int, text: Seq<char>)
    requires
        is_numeral(text),
        0 <= p,
        q == p + text.len(),
        q <= s.len(),
        s.subrange(p, q) == text,
        goes_on(s, q),
    ensures
        lex(s, p) == (Lexed { token: Some(TokenView::Num(text)), next: q }),
{
    assert forall|i: int| p <= i < q implies continues_numeral(#[trigger] s[i]) by {
        assert(s[i] == text[i - p]);
    }
    assert(s[p] == text[0]);
    lemma_run_ends(s, p + 1, q);
}

/// Where the text goes on at `q`, the step from `q` gives a token that ends
/// an operand.
proof fn lemma_lex_goes_on(s: Seq<char>, q: int)
    requires
        0 <= q <= s.len(),
        goes_on(s, q),
    ensures
        lex(s, q).token is Some,
        lex(s, q).token->0 != TokenView::LeftParen,
        closes(s, q) ==> lex(s, q).token->0.prec() == OperPrec::DefaultZero,
        q < s.len() ==> lex(s, q) == (Lexed {
            token: symbol(s[q]),
            next: q + 1,
        }),
{
}

/// A binary operation that is written from `p` to `q`, its operator at
/// `a`, is parsed to its tree if its operands are.
proof fn lemma_operation(
    s: Seq<char>,
    p: int,
    a: int,
    q: int,
    op: TokenView,
    l: NodeView,
    r: NodeView,
)
    requires
        0 <= p <= a < q <= s.len(),
        is_operator(op),
        s[a] == sign(op),
        closes(s, q),
        lex(s, a + 1).token is Some,
        primary(s, looking_at(s, p)) == (Outcome { result: Ok(l), cursor: looking_at(s, a) }),
        primary(s, looking_at(s, a + 1)) == (Outcome { result: Ok(r), cursor: looking_at(s, q) }),
    ensures
        expression(s, looking_at(s, p), OperPrec::DefaultZero) == (Outcome {
            result: Ok(combine(op, l, r)),
            cursor: looking_at(s, q),
        }),
{
    lemma_lex_goes_on(s, q);
    lemma_operand_alone(s, a + 1, q, op.prec(), r);
    lemma_expression_unfolds(s, looking_at(s, p), OperPrec::DefaultZero);
    lemma_fold_takes(s, a, q, OperPrec::DefaultZero, op, l, r);
    lemma_fold_stops(s, q, OperPrec::DefaultZero, combine(op, l, r));
}

/// A tree that is written in `s` from `p` on, with the end of the text or a
/// closing bracket behind it, is parsed from there as an expression.
proof fn lemma_written(t: NodeView, s: Seq<char>, p: int)
    requires
        t.well_formed(),
        0 <= p,
        p + written(t).len() <= s.len(),
        s.subrange(p, p + written(t).len()) == written(t),
        closes(s, p + written(t).len()),
    ensures
        lex(s, p).token is Some,
        expression(s, looking_at(s, p), OperPrec::DefaultZero) == (Outcome {
            result: Ok(t),
            cursor: looking_at(s, p + written(t).len()),
        }),
    decreases t, 1int,
{
    let w = written(t);
    let q = p + w.len();
    lemma_lex_goes_on(s, q);
    match t {
        NodeView::Number(text) => {
            lemma_lex_numeral_at(s, p, q, text);
            lemma_expression_unfolds(s, looking_at(s, p), OperPrec::DefaultZero);
            lemma_fold_unfolds(s, looking_at(s, q), OperPrec::DefaultZero, t);
        },
        NodeView::Negative(e) => {
            assert(s[p] == w[0]);
            assert(s.subrange(p + 1, q) =~= operand(*e)) by {
                assert(w.subrange(1, w.len() as int) =~= operand(*e));
                assert(s.subrange(p + 1, q) =~= w.subrange(1, w.len() as int));
            }
            lemma_operand(*e, s, p + 1);
            let at_operand = looking_at(s, p + 1);
            let at_end = looking_at(s, q);
            assert(advance(s, looking_at(s, p)).cursor == at_operand);
            lemma_expression_unfolds(s, at_operand, OperPrec::Negative);
            lemma_fold_unfolds(s, at_end, OperPrec::Negative, *e);
            lemma_expression_unfolds(s, looking_at(s, p), OperPrec::DefaultZero);
            lemma_fold_unfolds(s, at_end, OperPrec::DefaultZero, t);
        },
        _ => {
            let (op, l, r) = operation(t)->0;
            lemma_operands(l, r, op, s, p);
            lemma_operand(l, s, p);
            lemma_operand(r, s, p + operand(l).len() + 1);
            lemma_operation(s, p, p + operand(l).len(), q, op, l, r);
        },
    }
}

/// Where the two operands of a binary operation stand that is written in
/// `s` from `p` on.
proof fn lemma_operands(l: NodeView, r: NodeView, op: TokenView, s: Seq<char>, p: int)
    requires
        is_operator(op),
        0 <= p,
        p + operand(l).len() + 1 + operand(r).len() <= s.len(),
        s.subrange(p, p + operand(l).len() + 1 + operand(r).len()) == operand(l) + seq![sign(op)]
            + operand(r),
    ensures
        s[p + operand(l).len()] == sign(op),
        goes_on(s, p + operand(l).len()),
        s.subrange(p, p + operand(l).len()) == operand(l),
        s.subrange(p + operand(l).len() + 1, p + operand(l).len() + 1 + operand(r).len())
            == operand(r),
{
    let w = operand(l) + seq![sign(op)] + operand(r);
    let a = p + operand(l).len();
    let q = a + 1 + operand(r).len();
    assert(s[a] == w[a - p]) by {
        assert(s.subrange(p, q)[a - p] == s[a]);
    }
    assert(s.subrange(p, a) =~= operand(l)) by {
        assert(w.subrange(0, a - p) =~= operand(l));
        assert(s.subrange(p, a) =~= s.subrange(p, q).subrange(0, a - p));
    }
    assert(s.subrange(a + 1, q) =~= operand(r)) by {
        assert(w.subrange(a + 1 - p, w.len() as int) =~= operand(r));
        assert(s.subrange(a + 1, q) =~= s.subrange(p, q).subrange(a + 1 - p, q - p));
    }
}

/// A tree that is written as an operand in `s` from `p` on, with the end of
/// the text, a binary operator or a closing bracket behind it, is parsed
/// from there as an operand.
proof fn lemma_operand(t: NodeView, s: Seq<char>, p: int)
    requires
        t.well_formed(),
        0 <= p,
        p + operand(t).len() <= s.len(),
        s.subrange(p, p + operand(t).len()) == operand(t),
        goes_on(s, p + operand(t).len()),
    ensures
        operand(t).len() > 0,
        lex(s, p).token is Some,
        primary(s, looking_at(s, p)) == (Outcome {
            result: Ok(t),
            cursor: looking_at(s, p + operand(t).len()),
        }),
    decreases t, 2int,
{
    let w = operand(t);
    let q = p + w.len();
    lemma_lex_goes_on(s, q);
    match t {
        NodeView::Number(text) => {
            lemma_lex_numeral_at(s, p, q, text);
        },
        _ => {
            let inner = written(t);
            assert(s[p] == w[0]);
            assert(s[q - 1] == w[w.len() - 1]);
            assert(s.subrange(p + 1, q - 1) =~= inner) by {
                assert(w.subrange(1, w.len() - 1) =~= inner);
                assert(s.subrange(p + 1, q - 1) =~= w.subrange(1, w.len() - 1));
            }
            lemma_written(t, s, p + 1);
            let at_inner = looking_at(s, p + 1);
            let at_close = looking_at(s, q - 1);
            assert(advance(s, looking_at(s, p)).cursor == at_inner);
            lemma_group_unfolds(s, looking_at(s, p));
            assert(expect_token(s, at_close, TokenView::RightParen).cursor == looking_at(s, q));
            assert(group_end(s, at_close, t) == (Outcome {
                result: Ok(t),
                cursor: looking_at(s, q),
            }));
        },
    }
}

/// Folding stops at a token that is not taken at the floor.
proof fn lemma_fold_stops(s: Seq<char>, q: int, floor: OperPrec, left: NodeView)
    requires
        !takes(floor, looking_at(s, q).token),
    ensures
        fold(s, looking_at(s, q), floor, left) == (Outcome {
            result: Ok(left),
            cursor: looking_at(s, q),
        }),
{
    lemma_fold_unfolds(s, looking_at(s, q), floor, left);
}

/// Folding takes the operator `op` that stands at `a`, if it is taken at
/// the floor, with the expression behind it, and goes on from the end of
/// that expression.
proof fn lemma_fold_takes(
    s: Seq<char>,
    a: int,
    q: int,
    floor: OperPrec,
    op: TokenView,
    left: NodeView,
    right: NodeView,
)
    requires
        0 <= a < s.len(),
        is_operator(op),
        s[a] == sign(op),
        takes(floor, op),
        lex(s, a + 1).token is Some,
        expression(s, looking_at(s, a + 1), op.prec()) == (Outcome {
            result: Ok(right),
            cursor: looking_at(s, q),
        }),
    ensures
        fold(s, looking_at(s, a), floor, left) == fold(
            s,
            looking_at(s, q),
            floor,
            combine(op, left, right),
        ),
{
    let at_op = looking_at(s, a);
    assert(at_op.token == op);
    assert(advance(s, at_op).cursor == looking_at(s, a + 1));
    assert(binary(s, at_op, left) == (Outcome {
        result: Ok(combine(op, left, right)),
        cursor: looking_at(s, q),
    }));
    lemma_fold_unfolds(s, at_op, floor, left);
}

/// An operand that is followed by a token which is not taken at the floor
/// is an expression by itself.
proof fn lemma_operand_alone(s: Seq<char>, p: int, q: int, floor: OperPrec, t: NodeView)
    requires
        primary(s, looking_at(s, p)) == (Outcome { result: Ok(t), cursor: looking_at(s, q) }),
        !takes(floor, looking_at(s, q).token),
    ensures
        expression(s, looking_at(s, p), floor) == (Outcome {
            result: Ok(t),
            cursor: looking_at(s, q),
        }),
{
    lemma_expression_unfolds(s, looking_at(s, p), floor);
    lemma_fold_stops(s, q, floor, t);
}

/// Of two binary operators in a row the second one takes the operand
/// between them if it binds more tightly than the first or both are `^`;
/// else the first one takes it. So `+ - * /` are grouped from the left, also
/// where both operators are the same, and `^` is grouped from the right.
pub proof fn lemma_two_operators(
    a: NodeView,
    b: NodeView,
    c: NodeView,
    first: TokenView,
    second: TokenView,
)
    requires
        a.well_formed(),
        b.well_formed(),
        c.well_formed(),
        is_operator(first),
        is_operator(second),
    ensures
        parse_text(
            operand(a) + seq![sign(first)] + operand(b) + seq![sign(second)] + operand(c),
        ) == Ok::<NodeView, ParseErrorView>(
            if first.prec().below(second.prec()) || (first == TokenView::Caret && second
                == TokenView::Caret) {
                combine(first, a, combine(second, b, c))
            } else {
                combine(second, combine(first, a, b), c)
            },
        ),
{
    let s = operand(a) + seq![sign(first)] + operand(b) + seq![sign(second)] + operand(c);
    let i = operand(a).len() as int;
    let j: int = i + 1 + operand(b).len();
    let q = s.len() as int;
    let zero = OperPrec::DefaultZero;
    assert(q == j + 1 + operand(c).len());
    assert(s[i] == sign(first));
    assert(s[j] == sign(second));
    assert(s.subrange(0, i) =~= operand(a));
    assert(s.subrange(i + 1, j) =~= operand(b));
    assert(s.subrange(j + 1, q) =~= operand(c));
    lemma_operand(a, s, 0);
    lemma_operand(b, s, i + 1);
    lemma_operand(c, s, j + 1);
    assert(looking_at(s, i).token == first);
    assert(looking_at(s, j).token == second);
    assert(looking_at(s, q).token == TokenView::EoF);
    lemma_expression_unfolds(s, looking_at(s, 0), zero);
    lemma_operand_alone(s, j + 1, q, second.prec(), c);
    if takes(first.prec(), second) {
        let right = combine(second, b, c);
        lemma_expression_unfolds(s, looking_at(s, i + 1), first.prec());
        lemma_fold_takes(s, j, q, first.prec(), second, b, c);
        lemma_fold_stops(s, q, first.prec(), right);
        lemma_fold_takes(s, i, q, zero, first, a, right);
        lemma_fold_stops(s, q, zero, combine(first, a, right));
    } else {
        let left = combine(first, a, b);
        lemma_operand_alone(s, i + 1, j, first.prec(), b);
        lemma_fold_takes(s, i, j, zero, first, a, b);
        lemma_fold_takes(s, j, q, zero, second, left, c);
        lemma_fold_stops(s, q, zero, combine(second, left, c));
    }
}

/// A `-` in front of an operand takes that operand alone, whatever binary
/// operator follows: the negation becomes the left operand of that
/// operator.
pub proof fn lemma_negation_binds_first(a: NodeView, b: NodeView, op: TokenView)
    requires
        a.well_formed(),
        b.well_formed(),
        is_operator(op),
    ensures
        parse_text(seq!['-'] + operand(a) + seq![sign(op)] + operand(b)) == Ok::<
            NodeView,
            ParseErrorView,
        >(combine(op, NodeView::Negative(Box::new(a)), b)),
{
    let s = seq!['-'] + operand(a) + seq![sign(op)] + operand(b);
    let i = 1 + operand(a).len() as int;
    let q = s.len() as int;
    let zero = OperPrec::DefaultZero;
    let negation = NodeView::Negative(Box::new(a));
    assert(q == i + 1 + operand(b).len());
    assert(s[0] == '-');
    assert(s[i] == sign(op));
    assert(s.subrange(1, i) =~= operand(a));
    assert(s.subrange(i + 1, q) =~= operand(b));
    lemma_operand(a, s, 1);
    lemma_operand(b, s, i + 1);
    assert(looking_at(s, i).token == op);
    assert(looking_at(s, q).token == TokenView::EoF);
    assert(advance(s, looking_at(s, 0)).cursor == looking_at(s, 1));
    lemma_operand_alone(s, 1, i, OperPrec::Negative, a);
    assert(primary(s, looking_at(s, 0)) == (Outcome {
        result: Ok(negation),
        cursor: looking_at(s, i),
    }));
    lemma_expression_unfolds(s, looking_at(s, 0), zero);
    lemma_operand_alone(s, i + 1, q, op.prec(), b);
    lemma_fold_takes(s, i, q, zero, op, negation, b);
    lemma_fold_stops(s, q, zero, combine(op, negation, b));
}

/// Two groups in brackets, the second at once behind the first, are the
/// product of the two.
pub proof fn lemma_adjacent_groups(a: NodeView, b: NodeView)
    requires
        a.well_formed(),
        b.well_formed(),
    ensures
        parse_text(seq!['('] + written(a) + seq![')', '('] + written(b) + seq![')']) == Ok::<
            NodeView,
            ParseErrorView,
        >(NodeView::Multiply(Box::new(a), Box::new(b))),
{
    let s = seq!['('] + written(a) + seq![')', '('] + written(b) + seq![')'];
    let i = 1 + written(a).len() as int;
    let q = s.len() as int;
    let zero = OperPrec::DefaultZero;
    let product = NodeView::Multiply(Box::new(a), Box::new(b));
    assert(q == i + 2 + written(b).len() + 1);
    assert(s[0] == '(');
    assert(s[i] == ')');
    assert(s[i + 1] == '(');
    assert(s[q - 1] == ')');
    assert(s.subrange(1, i) =~= written(a));
    assert(s.subrange(i + 2, q - 1) =~= written(b));
    lemma_written(a, s, 1);
    lemma_written(b, s, i + 2);
    assert(looking_at(s, i).token == TokenView::RightParen);
    assert(looking_at(s, i + 1).token == TokenView::LeftParen);
    assert(looking_at(s, q - 1).token == TokenView::RightParen);
    assert(looking_at(s, q).token == TokenView::EoF);
    assert(advance(s, looking_at(s, 0)).cursor == looking_at(s, 1));
    assert(advance(s, looking_at(s, i + 1)).cursor == looking_at(s, i + 2));
    lemma_group_unfolds(s, looking_at(s, i + 1));
    assert(expect_token(s, looking_at(s, q - 1), TokenView::RightParen).cursor == looking_at(s, q));
    assert(group_end(s, looking_at(s, q - 1), b) == (Outcome {
        result: Ok(b),
        cursor: looking_at(s, q),
    }));
    lemma_operand_alone(s, i + 1, q, OperPrec::MulDiv, b);
    lemma_group_unfolds(s, looking_at(s, 0));
    assert(expect_token(s, looking_at(s, i), TokenView::RightParen).cursor == looking_at(
        s,
        i + 1,
    ));
    assert(group_end(s, looking_at(s, i), a) == (Outcome {
        result: Ok(product),
        cursor: looking_at(s, q),
    }));
    lemma_operand_alone(s, 0, q, zero, product);
}

/// A group whose closing bracket is missing at the end of the text is an
/// error: a closing bracket was expected where the text ends.
pub proof fn lemma_unclosed_group(t: NodeView)
    requires
        t.well_formed(),
    ensures
        parse_text(seq!['('] + written(t)) == Err::<NodeView, ParseErrorView>(
            unexpected(TokenView::RightParen, TokenView::EoF),
        ),
{
    let s = seq!['('] + written(t);
    let q = s.len() as int;
    assert(s[0] == '(');
    assert(s.subrange(1, q) =~= written(t));
    lemma_written(t, s, 1);
    assert(looking_at(s, q).token == TokenView::EoF);
    assert(advance(s, looking_at(s, 0)).cursor == looking_at(s, 1));
    lemma_group_unfolds(s, looking_at(s, 0));
    lemma_expression_unfolds(s, looking_at(s, 0), OperPrec::DefaultZero);
}

/// The empty text is an error: it begins no operand.
pub proof fn lemma_empty_text()
    ensures
        parse_text(Seq::<char>::empty()) == Err::<NodeView, ParseErrorView>(
            unable_to_parse(),
        ),
{
    let s = Seq::<char>::empty();
    lemma_expression_unfolds(s, looking_at(s, 0), OperPrec::DefaultZero);
}

/// A text that begins with a character which is neither a digit nor one of
/// `+ - * / ^ ( )`, white space for one, is an error: it begins with no
/// token.
pub proof fn lemma_no_first_token(s: Seq<char>)
    requires
        s.len() > 0,
        !is_digit(s[0]),
        symbol(s[0]) is None,
    ensures
        parse_text(s) == Err::<NodeView, ParseErrorView>(invalid_character()),
{
}

/// For every tree whose leaves hold numbers, the text that [`written`]
/// gives is parsed to that tree.
pub proof fn lemma_written_is_parsed(t: NodeView)
    requires
        t.well_formed(),
    ensures
        parse_text(written(t)) == Ok::<NodeView, ParseErrorView>(t),
{
    let s = written(t);
    assert(s.subrange(0, s.len() as int) =~= s);
    lemma_written(t, s, 0);
}

} // verus!
