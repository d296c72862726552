//! Tokens of an arithmetic expression and the precedence of its operators.
use vstd::prelude::*;
use vstd::string::StringExecFns;

verus! {

/// One lexical unit of an arithmetic expression.
#[derive(Debug, Clone, PartialEq)]
pub enum Token {
    /// `+`
    Add,
    /// `-`
    Subtract,
    /// `*`
    Multiply,
    /// `/`
    Divide,
    /// `^`
    Caret,
    /// `(`
    LeftParen,
    /// `)`
    RightParen,
    /// A numeric literal, held as the text that was read.
    Num(String),
    /// The end of the input.
    EoF,
}

/// The mathematical value of a [`Token`]: the same variants, with the text of
/// a literal as a sequence of characters.
pub enum TokenView {
    Add,
    Subtract,
    Multiply,
    Divide,
    Caret,
    LeftParen,
    RightParen,
    Num(Seq<char>),
    EoF,
}

/// How tightly an operator binds, from the loosest to the tightest.
#[derive(Debug, Clone, Copy, PartialEq, Eq, PartialOrd, Structural)]
pub enum OperPrec {
    /// Anything that is no binary operator.
    DefaultZero,
    /// `+` and `-` between two operands.
    AddSub,
    /// `*` and `/`.
    MulDiv,
    /// `^`.
    Power,
    /// `-` in front of an operand.
    Negative,
}

impl OperPrec {
    /// The place of this level in the order, counted from the loosest.
    pub open spec fn rank(self) -> int {
        match self {
            OperPrec::DefaultZero => 0,
            OperPrec::AddSub => 1,
            OperPrec::MulDiv => 2,
            OperPrec::Power => 3,
            OperPrec::Negative => 4,
        }
    }

    /// Whether this level binds strictly less tightly than `other`.
    pub open spec fn below(self, other: OperPrec) -> bool {
        self.rank() < other.rank()
    }

    /// Decides [`OperPrec::below`].
    pub fn is_below(&self, other: &OperPrec) -> (b: bool)
        ensures
            b == self.below(*other),
    {
        self.level() < other.level()
    }

    fn level(&self) -> (n: u8)
        ensures
            n == self.rank(),
    {
        match self {
            OperPrec::DefaultZero => 0,
            OperPrec::AddSub => 1,
            OperPrec::MulDiv => 2,
            OperPrec::Power => 3,
            OperPrec::Negative => 4,
        }
    }
}

impl TokenView {
    /// The precedence of the token as a binary operator; the lowest level for
    /// every token that is none.
    pub open spec fn prec(self) -> OperPrec {
        match self {
            TokenView::Add | TokenView::Subtract => OperPrec::AddSub,
            TokenView::Multiply | TokenView::Divide => OperPrec::MulDiv,
            TokenView::Caret => OperPrec::Power,
            _ => OperPrec::DefaultZero,
        }
    }

    /// The token written out for a message: the name of its variant, and for
    /// a literal its text in brackets behind the name.
    pub open spec fn name(self) -> Seq<char> {
        match self {
            TokenView::Add => "Add"@,
            TokenView::Subtract => "Subtract"@,
            TokenView::Multiply => "Multiply"@,
            TokenView::Divide => "Divide"@,
            TokenView::Caret => "Caret"@,
            TokenView::LeftParen => "LeftParen"@,
            TokenView::RightParen => "RightParen"@,
            TokenView::Num(text) => "Num("@ + text + ")"@,
            TokenView::EoF => "EoF"@,
        }
    }
}

impl View for Token {
    type V = TokenView;

    open spec fn view(&self) -> TokenView {
        match self {
            Token::Add => TokenView::Add,
            Token::Subtract => TokenView::Subtract,
            Token::Multiply => TokenView::Multiply,
            Token::Divide => TokenView::Divide,
            Token::Caret => TokenView::Caret,
            Token::LeftParen => TokenView::LeftParen,
            Token::RightParen => TokenView::RightParen,
            Token::Num(text) => TokenView::Num(text@),
            Token::EoF => TokenView::EoF,
        }
    }
}

impl Token {
    /// The precedence of the token as a binary operator.
    pub fn get_oper_prec(&self) -> (prec: OperPrec)
        ensures
            prec == self@.prec(),
    {
        match self {
            Token::Add | Token::Subtract => OperPrec::AddSub,
            Token::Multiply | Token::Divide => OperPrec::MulDiv,
            Token::Caret => OperPrec::Power,
            _ => OperPrec::DefaultZero,
        }
    }

    /// Whether the two tokens are the same: the same variant and, for
    /// literals, the same text.
    pub fn same_as(&self, other: &Token) -> (same: bool)
        ensures
            same == (self@ == other@),
    {
        match self {
            Token::Add => matches!(other, Token::Add),
            Token::Subtract => matches!(other, Token::Subtract),
            Token::Multiply => matches!(other, Token::Multiply),
            Token::Divide => matches!(other, Token::Divide),
            Token::Caret => matches!(other, Token::Caret),
            Token::LeftParen => matches!(other, Token::LeftParen),
            Token::RightParen => matches!(other, Token::RightParen),
            Token::Num(text) => match other {
                Token::Num(literal) => *text == *literal,
                _ => false,
            },
            Token::EoF => matches!(other, Token::EoF),
        }
    }

    /// The token written out for a message.
    pub fn name(&self) -> (text: String)
        ensures
            text@ == self@.name(),
    {
        match self {
            Token::Add => "Add".to_string(),
            Token::Subtract => "Subtract".to_string(),
            Token::Multiply => "Multiply".to_string(),
            Token::Divide => "Divide".to_string(),
            Token::Caret => "Caret".to_string(),
            Token::LeftParen => "LeftParen".to_string(),
            Token::RightParen => "RightParen".to_string(),
            Token::Num(literal) => {
                let mut text = "Num(".to_string();
                text.append(literal.as_str());
                text.append(")");
                text
            },
            Token::EoF => "EoF".to_string(),
        }
    }
}

} // verus!
