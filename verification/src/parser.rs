//! The parser: from the tokens of an expression to its tree.
use vstd::prelude::*;
use vstd::string::StringExecFns;
use crate::ast::{Node, NodeView};
use crate::grammar::{
    advance, binary, expect_token, expression, fold, invalid_character, lemma_advance_reads_on,
    lemma_binary, lemma_expression, lemma_primary, parse_text, primary, remaining, sound, takes,
    Cursor, Moved, Outcome,
};
use crate::token::{OperPrec, Token, TokenView};
use crate::tokenizer::{lemma_lex_moves_on, lex, Tokenizer};

verus! {

/// Why an expression could not be parsed. Both kinds carry a message for the
/// reader; they differ in what was wrong.
#[derive(Debug)]
pub enum ParseError {
    /// A token that begins no operand stood where an operand was due.
    UnableToParse(String),
    /// The text held no token, a token that is no operator stood where one
    /// was folded, or a bracket was not closed.
    InvalidOperator(String),
}

/// The mathematical value of a [`ParseError`]: its kind and its message.
pub enum ParseErrorView {
    UnableToParse(Seq<char>),
    InvalidOperator(Seq<char>),
}

impl View for ParseError {
    type V = ParseErrorView;

    open spec fn view(&self) -> ParseErrorView {
        match self {
            ParseError::UnableToParse(message) => ParseErrorView::UnableToParse(message@),
            ParseError::InvalidOperator(message) => ParseErrorView::InvalidOperator(message@),
        }
    }
}

impl ParseError {
    /// The error as a line for the reader: `Error in evaluating `, then the
    /// message.
    pub fn to_string(&self) -> (line: String)
        ensures
            line@ == "Error in evaluating "@ + self@.message(),
    {
        let mut line = "Error in evaluating ".to_string();
        match self {
            ParseError::UnableToParse(message) => line.append(message.as_str()),
            ParseError::InvalidOperator(message) => line.append(message.as_str()),
        }
        line
    }
}

impl ParseErrorView {
    /// The message that the error carries.
    pub open spec fn message(self) -> Seq<char> {
        match self {
            ParseErrorView::UnableToParse(message) => message,
            ParseErrorView::InvalidOperator(message) => message,
        }
    }
}

/// What the parser gave and where it then stood, as mathematical values.
pub open spec fn outcome(result: Result<Node, ParseError>, cursor: Cursor) -> Outcome {
    Outcome {
        result: match result {
            Ok(node) => Ok(node@),
            Err(e) => Err(e@),
        },
        cursor,
    }
}

/// Whether a token was read and where the parser then stood, as mathematical
/// values.
pub open spec fn moved(result: Result<(), ParseError>, cursor: Cursor) -> Moved {
    Moved {
        error: match result {
            Ok(_) => None,
            Err(e) => Some(e@),
        },
        cursor,
    }
}

/// Parses the expression that `text` begins with: [`parse_text`]. Each leaf
/// of the tree holds the text of a number.
pub fn parse(text: &str) -> (tree: Result<Node, ParseError>)
    ensures
        match tree {
            Ok(node) => parse_text(text@) == Ok::<NodeView, ParseErrorView>(node@)
                && node@.well_formed(),
            Err(e) => parse_text(text@) == Err::<NodeView, ParseErrorView>(e@),
        },
{
    match Parser::new(text) {
        Ok(parser) => {
            let mut parser = parser;
            parser.parse()
        },
        Err(e) => Err(e),
    }
}

/// A parser on one expression: the tokenizer and the token that was read
/// last and not yet used.
pub struct Parser {
    tokenizer: Tokenizer,
    current_token: Token,
}

impl Parser {
    /// The parser stands at a sound cursor: within its text, and if it
    /// looks at a literal, that is the text of a number. And it has asked
    /// for no more tokens than one and the characters that it has read.
    /// Every parser made by [`Parser::new`] is so, and stays so.
    pub open spec fn well_formed(&self) -> bool {
        &&& sound(self.input(), self.cursor())
        &&& self.requested() + remaining(self.input(), self.cursor()) <= self.input().len() + 1
    }

    /// How many tokens the parser has asked of its tokenizer.
    pub closed spec fn requested(&self) -> nat {
        self.tokenizer.served()
    }

    /// The parser went forward only from `before`: it reads the same text,
    /// its position did not move back, and it asked for no more tokens than
    /// the text that was left to read has become shorter.
    pub open spec fn went_on_from(&self, before: &Parser) -> bool {
        &&& self.input() == before.input()
        &&& before.cursor().pos <= self.cursor().pos
        &&& before.requested() <= self.requested()
        &&& self.requested() + remaining(self.input(), self.cursor()) <= before.requested()
            + remaining(before.input(), before.cursor())
    }

    /// The text that is parsed.
    pub closed spec fn input(&self) -> Seq<char> {
        self.tokenizer.input()
    }

    /// Where the parser stands.
    pub closed spec fn cursor(&self) -> Cursor {
        Cursor { token: self.current_token@, pos: self.tokenizer.position() }
    }

    /// A parser on `expr` that looks at its first token. It is an error if
    /// `expr` begins with no token.
    pub fn new(expr: &str) -> (made: Result<Parser, ParseError>)
        ensures
            match made {
                Ok(parser) => {
                    &&& parser.well_formed()
                    &&& parser.requested() == 1
                    &&& parser.input() == expr@
                    &&& lex(expr@, 0).token == Some(parser.cursor().token)
                    &&& parser.cursor().pos == lex(expr@, 0).next
                },
                Err(e) => lex(expr@, 0).token is None && e@ == invalid_character(),
            },
    {
        let mut lexer = Tokenizer::new(expr);
        proof {
            lemma_lex_moves_on(expr@, 0);
        }
        let cur_token = match lexer.next() {
            Some(token) => token,
            None => return Err(ParseError::InvalidOperator("Invalid character".to_string())),
        };
        Ok(Parser { tokenizer: lexer, current_token: cur_token })
    }

    /// Parses an expression from where the parser stands: [`expression`]
    /// with the lowest floor. Each leaf of the tree holds the text of a
    /// number. The parser stops at the first token that does not belong to
    /// the expression, and does not look at what follows it. It goes
    /// forward only, and all in all it asks for at most one token more than
    /// the text has characters.
    pub fn parse(&mut self) -> (tree: Result<Node, ParseError>)
        requires
            old(self).well_formed(),
        ensures
            final(self).well_formed(),
            final(self).went_on_from(old(self)),
            final(self).requested() <= final(self).input().len() + 1,
            final(self).input() == old(self).input(),
            outcome(tree, final(self).cursor()) == expression(
                old(self).input(),
                old(self).cursor(),
                OperPrec::DefaultZero,
            ),
            tree matches Ok(node) ==> node@.well_formed(),
    {
        proof {
            lemma_expression(self.input(), self.cursor(), OperPrec::DefaultZero);
        }
        self.generate_ast(OperPrec::DefaultZero)
    }

    /// An expression with the floor `oper_prec`.
    fn generate_ast(&mut self, oper_prec: OperPrec) -> (tree: Result<Node, ParseError>)
        ensures
            final(self).went_on_from(old(self)),
            final(self).input() == old(self).input(),
            outcome(tree, final(self).cursor()) == expression(
                old(self).input(),
                old(self).cursor(),
                oper_prec,
            ),
        decreases remaining(old(self).input(), old(self).cursor()), 1int,
    {
        let ghost s = self.input();
        let ghost start = self.cursor();
        let mut left_expr = match self.parse_number() {
            Ok(node) => node,
            Err(e) => return Err(e),
        };
        proof {
            lemma_primary(s, start);
        }
        while self.takes(oper_prec)
            invariant
                s == old(self).input(),
                start == old(self).cursor(),
                self.went_on_from(old(self)),
                self.input() == s,
                remaining(s, self.cursor()) < remaining(s, start),
                fold(s, self.cursor(), oper_prec, left_expr@) == expression(s, start, oper_prec),
            decreases remaining(s, self.cursor()),
        {
            proof {
                lemma_binary(s, self.cursor(), left_expr@);
            }
            left_expr = match self.convert_token_to_node(left_expr) {
                Ok(node) => node,
                Err(e) => return Err(e),
            };
        }
        Ok(left_expr)
    }

    /// Whether the parser looks at an operator that is folded at the floor
    /// `oper_prec`: [`takes`].
    fn takes(&self, oper_prec: OperPrec) -> (taken: bool)
        ensures
            taken == takes(oper_prec, self.cursor().token),
    {
        if matches!(self.current_token, Token::EoF) {
            false
        } else if oper_prec.is_below(&self.current_token.get_oper_prec()) {
            true
        } else {
            matches!(oper_prec, OperPrec::Power) && matches!(self.current_token, Token::Caret)
        }
    }

    /// One operand: [`primary`].
    fn parse_number(&mut self) -> (tree: Result<Node, ParseError>)
        ensures
            final(self).went_on_from(old(self)),
            final(self).input() == old(self).input(),
            outcome(tree, final(self).cursor()) == primary(old(self).input(), old(self).cursor()),
        decreases remaining(old(self).input(), old(self).cursor()), 0int,
    {
        let ghost s = self.input();
        let ghost start = self.cursor();
        match &self.current_token {
            Token::Subtract => {
                match self.get_next_token() {
                    Ok(_) => {},
                    Err(e) => return Err(e),
                }
                proof {
                    lemma_advance_reads_on(s, start);
                }
                match self.generate_ast(OperPrec::Negative) {
                    Ok(expr) => Ok(Node::Negative(Box::new(expr))),
                    Err(e) => Err(e),
                }
            },
            Token::Num(text) => {
                let literal = text.clone();
                match self.get_next_token() {
                    Ok(_) => Ok(Node::Number(literal)),
                    Err(e) => Err(e),
                }
            },
            Token::LeftParen => {
                match self.get_next_token() {
                    Ok(_) => {},
                    Err(e) => return Err(e),
                }
                proof {
                    lemma_advance_reads_on(s, start);
                    lemma_expression(s, self.cursor(), OperPrec::DefaultZero);
                }
                let expr = match self.generate_ast(OperPrec::DefaultZero) {
                    Ok(expr) => expr,
                    Err(e) => return Err(e),
                };
                match self.check_paren(Token::RightParen) {
                    Ok(_) => {},
                    Err(e) => return Err(e),
                }
                if matches!(self.current_token, Token::LeftParen) {
                    return match self.generate_ast(OperPrec::MulDiv) {
                        Ok(right) => Ok(Node::Multiply(Box::new(expr), Box::new(right))),
                        Err(e) => Err(e),
                    };
                }
                Ok(expr)
            },
            _ => Err(ParseError::UnableToParse("Unable to parse".to_string())),
        }
    }

    /// The operator that the parser looks at, with `left_expr` and the
    /// operand that follows: [`binary`].
    fn convert_token_to_node(&mut self, left_expr: Node) -> (tree: Result<Node, ParseError>)
        ensures
            final(self).went_on_from(old(self)),
            final(self).input() == old(self).input(),
            outcome(tree, final(self).cursor()) == binary(
                old(self).input(),
                old(self).cursor(),
                left_expr@,
            ),
        decreases remaining(old(self).input(), old(self).cursor()), 0int,
    {
        let ghost s = self.input();
        let ghost start = self.cursor();
        proof {
            if start.token != TokenView::EoF {
                lemma_advance_reads_on(s, start);
            }
        }
        match &self.current_token {
            Token::Add => {
                match self.get_next_token() {
                    Ok(_) => {},
                    Err(e) => return Err(e),
                }
                match self.generate_ast(OperPrec::AddSub) {
                    Ok(right_expr) => Ok(Node::Add(Box::new(left_expr), Box::new(right_expr))),
                    Err(e) => Err(e),
                }
            },
            Token::Subtract => {
                match self.get_next_token() {
                    Ok(_) => {},
                    Err(e) => return Err(e),
                }
                match self.generate_ast(OperPrec::AddSub) {
                    Ok(right_expr) => Ok(
                        Node::Subtract(Box::new(left_expr), Box::new(right_expr)),
                    ),
                    Err(e) => Err(e),
                }
            },
            Token::Multiply => {
                match self.get_next_token() {
                    Ok(_) => {},
                    Err(e) => return Err(e),
                }
                match self.generate_ast(OperPrec::MulDiv) {
                    Ok(right_expr) => Ok(
                        Node::Multiply(Box::new(left_expr), Box::new(right_expr)),
                    ),
                    Err(e) => Err(e),
                }
            },
            Token::Divide => {
                match self.get_next_token() {
                    Ok(_) => {},
                    Err(e) => return Err(e),
                }
                match self.generate_ast(OperPrec::MulDiv) {
                    Ok(right_expr) => Ok(Node::Divide(Box::new(left_expr), Box::new(right_expr))),
                    Err(e) => Err(e),
                }
            },
            Token::Caret => {
                match self.get_next_token() {
                    Ok(_) => {},
                    Err(e) => return Err(e),
                }
                match self.generate_ast(OperPrec::Power) {
                    Ok(right_expr) => Ok(Node::Caret(Box::new(left_expr), Box::new(right_expr))),
                    Err(e) => Err(e),
                }
            },
            other => {
                let mut message = "Please enter a valid operator ".to_string();
                message.append(other.name().as_str());
                Err(ParseError::InvalidOperator(message))
            },
        }
    }

    /// Passes over the token `expect`: [`expect_token`].
    fn check_paren(&mut self, expect: Token) -> (passed: Result<(), ParseError>)
        ensures
            expect@ != TokenView::EoF ==> final(self).went_on_from(old(self)),
            final(self).input() == old(self).input(),
            moved(passed, final(self).cursor()) == expect_token(
                old(self).input(),
                old(self).cursor(),
                expect@,
            ),
    {
        if expect.same_as(&self.current_token) {
            self.get_next_token()
        } else {
            let mut message = "Expected ".to_string();
            message.append(expect.name().as_str());
            message.append("\tGot ");
            message.append(self.current_token.name().as_str());
            Err(ParseError::InvalidOperator(message))
        }
    }

    /// Reads the next token: [`advance`].
    fn get_next_token(&mut self) -> (read: Result<(), ParseError>)
        ensures
            old(self).cursor().token != TokenView::EoF ==> final(self).went_on_from(old(self)),
            final(self).requested() == old(self).requested() + 1,
            final(self).input() == old(self).input(),
            moved(read, final(self).cursor()) == advance(old(self).input(), old(self).cursor()),
    {
        proof {
            if self.cursor().token != TokenView::EoF {
                lemma_advance_reads_on(self.input(), self.cursor());
            }
        }
        let next_token = match self.tokenizer.next() {
            Some(token) => token,
            None => return Err(ParseError::InvalidOperator("Invalid character".to_string())),
        };
        self.current_token = next_token;
        Ok(())
    }
}

} // verus!
