//! What the parser computes, as mathematics.
//!
//! The parser reads a text `s` through a cursor: the token it looks at and
//! the position from which the tokenizer goes on. Each function here takes a
//! cursor and gives an [`Outcome`]: a tree or an error, and the cursor at
//! which the parser then stands.
//!
//! Operators are folded by precedence climbing. [`expression`] reads one
//! operand and then, as long as the token it looks at is an operator that is
//! taken at the floor it was given ([`takes`]), folds that operator and its
//! right operand into what it has. The right operand is read with the
//! operator's own precedence as the floor. An operator is taken if it binds
//! more tightly than the floor, and `^` is taken at its own level too. So of
//! two different operators the one that binds more tightly gets the operand
//! between them; a row of `+ -` or of `* /` is grouped from the left, `8/4/2`
//! is `(8/4)/2`; and a row of `^` is grouped from the right, `2^3^2` is
//! `2^(3^2)`.
//!
//! Two choices are worth knowing. A `-` in front of an operand binds more
//! tightly than every binary operator: `-2^2` is `(-2)^2`. And a bracketed
//! group that follows another one at once is multiplied with it: `(2)(3)` is
//! `2*3`.
//!
//! The three tests of the form `remaining(..) < remaining(..)` in the
//! definitions are there to show that the definitions are well founded. They
//! always hold ([`lemma_expression`] and the lemmas beside it);
//! [`lemma_expression_unfolds`], [`lemma_fold_unfolds`] and
//! [`lemma_group_unfolds`] state the definitions without them.
use vstd::prelude::*;
use crate::ast::NodeView;
use crate::parser::ParseErrorView;
use crate::token::{OperPrec, TokenView};
use crate::tokenizer::{is_numeral, lemma_lex_moves_on, lemma_lex_numeral, lex};

verus! {

/// Where the parser stands: the token it looks at, and the position in the
/// text from which the next token is read.
pub struct Cursor {
    pub token: TokenView,
    pub pos: int,
}

/// A tree or an error, and where the parser stands after it.
pub struct Outcome {
    pub result: Result<NodeView, ParseErrorView>,
    pub cursor: Cursor,
}

/// The cursor after a try to read the next token, and the error if the text
/// held none.
pub struct Moved {
    pub error: Option<ParseErrorView>,
    pub cursor: Cursor,
}

/// The error for a place in the text that holds no token.
pub open spec fn invalid_character() -> ParseErrorView {
    ParseErrorView::InvalidOperator("Invalid character"@)
}

/// The error for a token that begins no operand.
pub open spec fn unable_to_parse() -> ParseErrorView {
    ParseErrorView::UnableToParse("Unable to parse"@)
}

/// The error for a token that is no binary operator where one is folded.
pub open spec fn no_operator(found: TokenView) -> ParseErrorView {
    ParseErrorView::InvalidOperator("Please enter a valid operator "@ + found.name())
}

/// The error for a token other than the expected one.
pub open spec fn unexpected(expect: TokenView, found: TokenView) -> ParseErrorView {
    ParseErrorView::InvalidOperator("Expected "@ + expect.name() + "\tGot "@ + found.name())
}

/// How much is left to read at `c`: the characters from its position on, and
/// the token it looks at unless that is the end marker.
pub open spec fn remaining(s: Seq<char>, c: Cursor) -> nat {
    let chars = if c.pos < s.len() {
        s.len() - c.pos
    } else {
        0
    };
    let token = if c.token == TokenView::EoF {
        0nat
    } else {
        1nat
    };
    (chars + token) as nat
}

/// Reads the next token. Where the text holds none, the token looked at
/// stays and [`invalid_character`] is the error.
pub open spec fn advance(s: Seq<char>, c: Cursor) -> Moved {
    match lex(s, c.pos).token {
        Some(token) => Moved { error: None, cursor: Cursor { token, pos: lex(s, c.pos).next } },
        None => Moved {
            error: Some(invalid_character()),
            cursor: Cursor { token: c.token, pos: lex(s, c.pos).next },
        },
    }
}

/// Passes over the token `expect`: reads on if the parser looks at it, and
/// is an error, with the cursor unchanged, if it looks at another.
pub open spec fn expect_token(s: Seq<char>, c: Cursor, expect: TokenView) -> Moved {
    if c.token == expect {
        advance(s, c)
    } else {
        Moved { error: Some(unexpected(expect, c.token)), cursor: c }
    }
}

/// The node for the binary operator `op` between `left` and `right`.
pub open spec fn combine(op: TokenView, left: NodeView, right: NodeView) -> NodeView {
    match op {
        TokenView::Add => NodeView::Add(Box::new(left), Box::new(right)),
        TokenView::Subtract => NodeView::Subtract(Box::new(left), Box::new(right)),
        TokenView::Multiply => NodeView::Multiply(Box::new(left), Box::new(right)),
        TokenView::Divide => NodeView::Divide(Box::new(left), Box::new(right)),
        _ => NodeView::Caret(Box::new(left), Box::new(right)),
    }
}

/// Whether `token` is one of the five binary operators.
pub open spec fn is_operator(token: TokenView) -> bool {
    token.prec() != OperPrec::DefaultZero
}

/// Whether `token` is an operator that is folded at the floor `floor`: it
/// binds more tightly than the floor, or it is `^` and the floor is the
/// level of `^`. The end marker never is.
pub open spec fn takes(floor: OperPrec, token: TokenView) -> bool {
    &&& token != TokenView::EoF
    &&& floor.below(token.prec()) || (floor == OperPrec::Power && token == TokenView::Caret)
}

/// An expression read from `c`: one operand, then every operator that is
/// taken at `floor`, each with its right operand.
pub open spec fn expression(s: Seq<char>, c: Cursor, floor: OperPrec) -> Outcome
    decreases remaining(s, c), 1int,
{
    let first = primary(s, c);
    match first.result {
        Ok(left) => if remaining(s, first.cursor) < remaining(s, c) {
            fold(s, first.cursor, floor, left)
        } else {
            first
        },
        Err(_) => first,
    }
}

/// Folds into `left` the operators from `c` on that are taken at `floor`,
/// each with its right operand, until the parser looks at a token that is no
/// such operator.
pub open spec fn fold(s: Seq<char>, c: Cursor, floor: OperPrec, left: NodeView) -> Outcome
    decreases remaining(s, c), 1int,
{
    if takes(floor, c.token) {
        let folded = binary(s, c, left);
        match folded.result {
            Ok(node) => if remaining(s, folded.cursor) < remaining(s, c) {
                fold(s, folded.cursor, floor, node)
            } else {
                folded
            },
            Err(_) => folded,
        }
    } else {
        Outcome { result: Ok(left), cursor: c }
    }
}

/// The operator at `c` with `left` and the operand that follows it. The
/// operand is an expression whose floor is the operator's own precedence.
pub open spec fn binary(s: Seq<char>, c: Cursor, left: NodeView) -> Outcome
    decreases remaining(s, c), 0int,
{
    if is_operator(c.token) {
        let moved = advance(s, c);
        match moved.error {
            Some(e) => Outcome { result: Err(e), cursor: moved.cursor },
            None => {
                proof {
                    lemma_advance_reads_on(s, c);
                }
                let right = expression(s, moved.cursor, c.token.prec());
                match right.result {
                    Ok(node) => Outcome {
                        result: Ok(combine(c.token, left, node)),
                        cursor: right.cursor,
                    },
                    Err(_) => right,
                }
            },
        }
    } else {
        Outcome { result: Err(no_operator(c.token)), cursor: c }
    }
}

/// One operand read from `c`: a number, a `-` with the operand it negates, or
/// a group in brackets, multiplied with the group that follows it if one
/// follows at once.
pub open spec fn primary(s: Seq<char>, c: Cursor) -> Outcome
    decreases remaining(s, c), 0int,
{
    match c.token {
        TokenView::Subtract => {
            let moved = advance(s, c);
            match moved.error {
                Some(e) => Outcome { result: Err(e), cursor: moved.cursor },
                None => {
                    proof {
                        lemma_advance_reads_on(s, c);
                    }
                    let operand = expression(s, moved.cursor, OperPrec::Negative);
                    match operand.result {
                        Ok(node) => Outcome {
                            result: Ok(NodeView::Negative(Box::new(node))),
                            cursor: operand.cursor,
                        },
                        Err(_) => operand,
                    }
                },
            }
        },
        TokenView::Num(text) => {
            let moved = advance(s, c);
            match moved.error {
                Some(e) => Outcome { result: Err(e), cursor: moved.cursor },
                None => Outcome { result: Ok(NodeView::Number(text)), cursor: moved.cursor },
            }
        },
        TokenView::LeftParen => {
            let moved = advance(s, c);
            match moved.error {
                Some(e) => Outcome { result: Err(e), cursor: moved.cursor },
                None => {
                    proof {
                        lemma_advance_reads_on(s, c);
                    }
                    let inner = expression(s, moved.cursor, OperPrec::DefaultZero);
                    match inner.result {
                        Ok(group) => if remaining(s, inner.cursor) < remaining(s, c) {
                            group_end(s, inner.cursor, group)
                        } else {
                            inner
                        },
                        Err(_) => inner,
                    }
                },
            }
        },
        _ => Outcome { result: Err(unable_to_parse()), cursor: c },
    }
}

/// The end of a group in brackets whose inside, `group`, was read up to
/// `c`: the closing bracket and, if an opening bracket follows it at once,
/// the product of `group` and the expression that this bracket begins, read
/// with the floor of `*`.
pub open spec fn group_end(s: Seq<char>, c: Cursor, group: NodeView) -> Outcome
    decreases remaining(s, c), 0int,
{
    let closed = expect_token(s, c, TokenView::RightParen);
    match closed.error {
        Some(e) => Outcome { result: Err(e), cursor: closed.cursor },
        None => if closed.cursor.token == TokenView::LeftParen {
            proof {
                lemma_advance_reads_on(s, c);
            }
            let second = expression(s, closed.cursor, OperPrec::MulDiv);
            match second.result {
                Ok(node) => Outcome {
                    result: Ok(NodeView::Multiply(Box::new(group), Box::new(node))),
                    cursor: second.cursor,
                },
                Err(_) => second,
            }
        } else {
            Outcome { result: Ok(group), cursor: closed.cursor }
        },
    }
}

/// The whole parse of the text `s`: the first token is read, and then an
/// expression with the lowest floor. What follows the expression is not
/// looked at.
pub open spec fn parse_text(s: Seq<char>) -> Result<NodeView, ParseErrorView> {
    match lex(s, 0).token {
        Some(token) => expression(
            s,
            Cursor { token, pos: lex(s, 0).next },
            OperPrec::DefaultZero,
        ).result,
        None => Err(invalid_character()),
    }
}

/// A cursor that the parser can reach on `s`: its position lies within the
/// text, and a literal that it looks at is the text of a number.
pub open spec fn sound(s: Seq<char>, c: Cursor) -> bool {
    &&& 0 <= c.pos <= s.len()
    &&& c.token matches TokenView::Num(text) ==> is_numeral(text)
}

/// Reading a token where the parser does not look at the end marker leaves
/// less to read.
pub proof fn lemma_advance_reads_on(s: Seq<char>, c: Cursor)
    requires
        c.token != TokenView::EoF,
    ensures
        advance(s, c).error is None ==> remaining(s, advance(s, c).cursor) < remaining(s, c),
        remaining(s, advance(s, c).cursor) <= remaining(s, c),
{
    if 0 <= c.pos <= s.len() {
        lemma_lex_moves_on(s, c.pos);
    }
}

/// Reading a token keeps the cursor sound.
pub proof fn lemma_advance_sound(s: Seq<char>, c: Cursor)
    requires
        sound(s, c),
    ensures
        sound(s, advance(s, c).cursor),
{
    lemma_lex_moves_on(s, c.pos);
    lemma_lex_numeral(s, c.pos);
}

/// An expression that was read took at least one token. Read from a sound
/// cursor, it ends at a sound cursor and each of its leaves holds the text
/// of a number.
pub proof fn lemma_expression(s: Seq<char>, c: Cursor, floor: OperPrec)
    ensures
        expression(s, c, floor).result is Ok ==> remaining(s, expression(s, c, floor).cursor)
            < remaining(s, c),
        remaining(s, expression(s, c, floor).cursor) <= remaining(s, c),
        sound(s, c) ==> sound(s, expression(s, c, floor).cursor),
        sound(s, c) ==> (expression(s, c, floor).result matches Ok(
            node,
        ) ==> node.well_formed()),
    decreases remaining(s, c), 1int,
{
    lemma_primary(s, c);
    let first = primary(s, c);
    if let Ok(left) = first.result {
        lemma_fold(s, first.cursor, floor, left);
    }
}

/// Folding operators never gives back what was read. From a sound cursor
/// and a tree whose leaves hold numbers, it ends at a sound cursor with such
/// a tree.
pub proof fn lemma_fold(s: Seq<char>, c: Cursor, floor: OperPrec, left: NodeView)
    ensures
        remaining(s, fold(s, c, floor, left).cursor) <= remaining(s, c),
        sound(s, c) ==> sound(s, fold(s, c, floor, left).cursor),
        sound(s, c) && left.well_formed() ==> (fold(
            s,
            c,
            floor,
            left,
        ).result matches Ok(node) ==> node.well_formed()),
    decreases remaining(s, c), 1int,
{
    if takes(floor, c.token) {
        lemma_binary(s, c, left);
        let folded = binary(s, c, left);
        if let Ok(node) = folded.result {
            lemma_fold(s, folded.cursor, floor, node);
        }
    }
}

/// An operator that was folded took at least one token; the rest as for
/// [`lemma_fold`].
pub proof fn lemma_binary(s: Seq<char>, c: Cursor, left: NodeView)
    ensures
        binary(s, c, left).result is Ok ==> remaining(s, binary(s, c, left).cursor) < remaining(
            s,
            c,
        ),
        remaining(s, binary(s, c, left).cursor) <= remaining(s, c),
        sound(s, c) ==> sound(s, binary(s, c, left).cursor),
        sound(s, c) && left.well_formed() ==> (binary(
            s,
            c,
            left,
        ).result matches Ok(node) ==> node.well_formed()),
    decreases remaining(s, c), 0int,
{
    if is_operator(c.token) {
        lemma_advance_reads_on(s, c);
        if sound(s, c) {
            lemma_advance_sound(s, c);
        }
        let moved = advance(s, c);
        if moved.error is None {
            lemma_expression(s, moved.cursor, c.token.prec());
        }
    }
}

/// An operand that was read took at least one token; the rest as for
/// [`lemma_expression`].
pub proof fn lemma_primary(s: Seq<char>, c: Cursor)
    ensures
        primary(s, c).result is Ok ==> remaining(s, primary(s, c).cursor) < remaining(s, c),
        remaining(s, primary(s, c).cursor) <= remaining(s, c),
        sound(s, c) ==> sound(s, primary(s, c).cursor),
        sound(s, c) ==> (primary(s, c).result matches Ok(node)
            ==> node.well_formed()),
    decreases remaining(s, c), 0int,
{
    if c.token != TokenView::EoF {
        lemma_advance_reads_on(s, c);
    }
    if sound(s, c) {
        lemma_advance_sound(s, c);
    }
    let moved = advance(s, c);
    match c.token {
        TokenView::Subtract => {
            if moved.error is None {
                lemma_expression(s, moved.cursor, OperPrec::Negative);
            }
        },
        TokenView::LeftParen => {
            if moved.error is None {
                lemma_expression(s, moved.cursor, OperPrec::DefaultZero);
                let inner = expression(s, moved.cursor, OperPrec::DefaultZero);
                if let Ok(group) = inner.result {
                    lemma_group_end(s, inner.cursor, group);
                }
            }
        },
        _ => {},
    }
}

/// The end of a group that was read took at least the closing bracket; the
/// rest as for [`lemma_fold`].
pub proof fn lemma_group_end(s: Seq<char>, c: Cursor, group: NodeView)
    ensures
        group_end(s, c, group).result is Ok ==> remaining(s, group_end(s, c, group).cursor)
            < remaining(s, c),
        remaining(s, group_end(s, c, group).cursor) <= remaining(s, c),
        sound(s, c) ==> sound(s, group_end(s, c, group).cursor),
        sound(s, c) && group.well_formed() ==> (group_end(
            s,
            c,
            group,
        ).result matches Ok(node) ==> node.well_formed()),
    decreases remaining(s, c), 0int,
{
    let closed = expect_token(s, c, TokenView::RightParen);
    if c.token == TokenView::RightParen {
        lemma_advance_reads_on(s, c);
        if sound(s, c) {
            lemma_advance_sound(s, c);
        }
        if closed.error is None && closed.cursor.token == TokenView::LeftParen {
            lemma_expression(s, closed.cursor, OperPrec::MulDiv);
        }
    }
}

/// An expression is an operand, then the operators folded into it.
pub proof fn lemma_expression_unfolds(s: Seq<char>, c: Cursor, floor: OperPrec)
    ensures
        expression(s, c, floor) == match primary(s, c).result {
            Ok(left) => fold(s, primary(s, c).cursor, floor, left),
            Err(_) => primary(s, c),
        },
{
    lemma_primary(s, c);
}

/// Folding takes one operator with its right operand and goes on from
/// there, as long as the parser looks at an operator that is taken at the
/// floor.
pub proof fn lemma_fold_unfolds(s: Seq<char>, c: Cursor, floor: OperPrec, left: NodeView)
    ensures
        fold(s, c, floor, left) == if takes(floor, c.token) {
            match binary(s, c, left).result {
                Ok(node) => fold(s, binary(s, c, left).cursor, floor, node),
                Err(_) => binary(s, c, left),
            }
        } else {
            Outcome { result: Ok(left), cursor: c }
        },
{
    lemma_binary(s, c, left);
}

/// An operand that begins with an opening bracket is the expression inside
/// and the end of the group.
pub proof fn lemma_group_unfolds(s: Seq<char>, c: Cursor)
    requires
        c.token == TokenView::LeftParen,
        advance(s, c).error is None,
    ensures
        primary(s, c) == match expression(
            s,
            advance(s, c).cursor,
            OperPrec::DefaultZero,
        ).result {
            Ok(group) => group_end(
                s,
                expression(s, advance(s, c).cursor, OperPrec::DefaultZero).cursor,
                group,
            ),
            Err(_) => expression(s, advance(s, c).cursor, OperPrec::DefaultZero),
        },
{
    lemma_advance_reads_on(s, c);
    lemma_expression(s, advance(s, c).cursor, OperPrec::DefaultZero);
}

} // verus!
