//! The tokenizer: from the characters of an expression to its tokens, one
//! token for each call.
//!
//! White space is no token: whoever reads a line strips it first.
//!
//! A numeric literal begins with a decimal digit and runs on over digits and
//! decimal points. A literal with more than one decimal point is no number:
//! it is passed over and the step holds no token, as for any other text that
//! is none. So every literal that is yielded is the text of a number.
use vstd::prelude::*;
use crate::text::{characters, string_of};
use crate::token::{Token, TokenView};

verus! {

/// A decimal digit, `0` to `9`.
pub open spec fn is_digit(c: char) -> bool {
    '0' <= c && c <= '9'
}

/// A character that continues a numeric literal: a digit or a decimal point.
pub open spec fn continues_numeral(c: char) -> bool {
    is_digit(c) || c == '.'
}

/// The first index from `from` on at which `s` holds no character that
/// continues a numeric literal (the length of `s` if there is none).
pub open spec fn numeral_end(s: Seq<char>, from: int) -> int
    decreases s.len() - from,
{
    if 0 <= from < s.len() && continues_numeral(s[from]) {
        numeral_end(s, from + 1)
    } else {
        from
    }
}

/// The number of decimal points in `t`.
pub open spec fn points(t: Seq<char>) -> nat
    decreases t.len(),
{
    if t.len() == 0 {
        0
    } else {
        points(t.drop_last()) + if t.last() == '.' {
            1nat
        } else {
            0nat
        }
    }
}

/// The text of a number: a digit, then digits and at most one decimal point.
pub open spec fn is_numeral(t: Seq<char>) -> bool {
    &&& t.len() > 0
    &&& is_digit(t[0])
    &&& forall|i: int| 0 <= i < t.len() ==> continues_numeral(#[trigger] t[i])
    &&& points(t) <= 1
}

/// What one step of the tokenizer gives: the token, or `None` where the text
/// holds no token, and the position from which the next step reads.
pub struct Lexed {
    pub token: Option<TokenView>,
    pub next: int,
}

/// One step of the tokenizer on `s` from `pos`.
///
/// A digit begins a literal, which ends before the first character that is
/// neither a digit nor a decimal point. If that character is `(`, or the
/// literal holds more than one decimal point, the literal is passed over and
/// the step holds no token; the character behind the literal is left to be
/// read. Each of `+ - * / ^ ( )` is a token by itself. Any other character
/// is skipped and holds no token. At the end of `s` the step gives the end
/// marker and stays there.
pub open spec fn lex(s: Seq<char>, pos: int) -> Lexed {
    if !(0 <= pos < s.len()) {
        Lexed { token: Some(TokenView::EoF), next: pos }
    } else if is_digit(s[pos]) {
        let end = numeral_end(s, pos + 1);
        if (end < s.len() && s[end] == '(') || points(s.subrange(pos, end)) > 1 {
            Lexed { token: None, next: end }
        } else {
            Lexed { token: Some(TokenView::Num(s.subrange(pos, end))), next: end }
        }
    } else {
        Lexed { token: symbol(s[pos]), next: pos + 1 }
    }
}

/// The token that the single character `c` stands for, if any.
pub open spec fn symbol(c: char) -> Option<TokenView> {
    if c == '+' {
        Some(TokenView::Add)
    } else if c == '-' {
        Some(TokenView::Subtract)
    } else if c == '*' {
        Some(TokenView::Multiply)
    } else if c == '/' {
        Some(TokenView::Divide)
    } else if c == '^' {
        Some(TokenView::Caret)
    } else if c == '(' {
        Some(TokenView::LeftParen)
    } else if c == ')' {
        Some(TokenView::RightParen)
    } else {
        None
    }
}

/// What a step of the tokenizer yielded, as a mathematical value.
pub open spec fn yielded(token: Option<Token>) -> Option<TokenView> {
    match token {
        Some(t) => Some(t@),
        None => None,
    }
}

/// `numeral_end` lies between `from` and the end of `s`, runs over
/// characters of a literal only, and stops at one that is none.
pub proof fn lemma_numeral_end(s: Seq<char>, from: int)
    requires
        0 <= from <= s.len(),
    ensures
        from <= numeral_end(s, from) <= s.len(),
        forall|i: int| from <= i < numeral_end(s, from) ==> continues_numeral(#[trigger] s[i]),
        numeral_end(s, from) < s.len() ==> !continues_numeral(s[numeral_end(s, from)]),
    decreases s.len() - from,
{
    if from < s.len() && continues_numeral(s[from]) {
        lemma_numeral_end(s, from + 1);
    }
}

/// A step never moves back, stays within the text, and moves on unless it
/// gives the end marker.
pub proof fn lemma_lex_moves_on(s: Seq<char>, pos: int)
    requires
        0 <= pos <= s.len(),
    ensures
        pos <= lex(s, pos).next <= s.len(),
        lex(s, pos).token != Some(TokenView::EoF) ==> pos < lex(s, pos).next,
        lex(s, pos).token == Some(TokenView::EoF) <==> pos == s.len(),
{
    if pos < s.len() {
        lemma_numeral_end(s, pos + 1);
    }
}

/// Every literal that a step yields is the text of a number.
pub proof fn lemma_lex_numeral(s: Seq<char>, pos: int)
    requires
        0 <= pos <= s.len(),
    ensures
        lex(s, pos).token matches Some(TokenView::Num(t)) ==> is_numeral(t),
{
    if pos < s.len() && is_digit(s[pos]) {
        lemma_numeral_end(s, pos + 1);
    }
}

/// The tokens of `s` from `pos` on, up to the end marker and with it; `None`
/// if a step on the way holds no token.
pub open spec fn tokens(s: Seq<char>, pos: int) -> Option<Seq<TokenView>>
    decreases s.len() - pos,
{
    match lex(s, pos).token {
        None => None,
        Some(TokenView::EoF) => Some(seq![TokenView::EoF]),
        Some(token) => {
            proof {
                if 0 <= pos <= s.len() {
                    lemma_lex_moves_on(s, pos);
                }
            }
            match tokens(s, lex(s, pos).next) {
                Some(rest) => Some(seq![token] + rest),
                None => None,
            }
        },
    }
}

/// The mathematical values of a list of tokens.
pub open spec fn token_views(list: Seq<Token>) -> Seq<TokenView> {
    list.map_values(|token: Token| token@)
}

/// All tokens of `text`, the last of them the end marker; `None` if `text`
/// holds anything that is no token.
pub fn tokenize(text: &str) -> (list: Option<Vec<Token>>)
    ensures
        match list {
            Some(found) => tokens(text@, 0) == Some(token_views(found@)),
            None => tokens(text@, 0) is None,
        },
{
    let mut tokenizer = Tokenizer::new(text);
    let mut found: Vec<Token> = Vec::new();
    assert(token_views(found@) + tokens(text@, 0)->0 =~= tokens(text@, 0)->0);
    loop
        invariant
            tokenizer.input() == text@,
            0 <= tokenizer.position() <= text@.len(),
            tokens(text@, 0) == match tokens(text@, tokenizer.position()) {
                Some(rest) => Some(token_views(found@) + rest),
                None => None,
            },
        decreases text@.len() - tokenizer.position(),
    {
        let ghost before = found@;
        let ghost pos = tokenizer.position();
        proof {
            lemma_lex_moves_on(text@, pos);
        }
        match tokenizer.next() {
            None => {
                return None;
            },
            Some(token) => {
                let end = matches!(token, Token::EoF);
                found.push(token);
                assert(token_views(found@) =~= token_views(before) + seq![token@]);
                if end {
                    return Some(found);
                }
                proof {
                    let rest = tokens(text@, tokenizer.position());
                    if rest is Some {
                        assert(token_views(before) + (seq![token@] + rest->0) =~= token_views(
                            found@,
                        ) + rest->0);
                    }
                }
            },
        }
    }
}

/// Reads an expression token by token.
pub struct Tokenizer {
    chars: Vec<char>,
    pos: usize,
    served: Ghost<nat>,
}

impl Tokenizer {
    #[verifier::type_invariant]
    spec fn inv(&self) -> bool {
        self.pos <= self.chars.len()
    }

    /// The text that is read.
    pub closed spec fn input(&self) -> Seq<char> {
        self.chars@
    }

    /// The index of the next character to read.
    pub closed spec fn position(&self) -> int {
        self.pos as int
    }

    /// How many steps the tokenizer has made.
    pub closed spec fn served(&self) -> nat {
        self.served@
    }

    /// A tokenizer at the beginning of `new_expr`.
    pub fn new(new_expr: &str) -> (tokenizer: Tokenizer)
        ensures
            tokenizer.input() == new_expr@,
            tokenizer.position() == 0,
            tokenizer.served() == 0,
    {
        Tokenizer { chars: characters(new_expr), pos: 0, served: Ghost(0) }
    }

    /// The next token, or `None` where the text holds none: one step of
    /// [`lex`] from the current position.
    pub fn next(&mut self) -> (token: Option<Token>)
        ensures
            final(self).input() == old(self).input(),
            final(self).position() == lex(old(self).input(), old(self).position()).next,
            yielded(token) == lex(old(self).input(), old(self).position()).token,
            0 <= old(self).position() <= final(self).position() <= final(self).input().len(),
            token matches Some(Token::Num(text)) ==> is_numeral(text@),
            final(self).served() == old(self).served() + 1,
    {
        proof {
            use_type_invariant(&*self);
            lemma_lex_moves_on(self.chars@, self.pos as int);
            lemma_lex_numeral(self.chars@, self.pos as int);
        }
        self.served = Ghost((self.served@ + 1) as nat);
        let len = self.chars.len();
        if self.pos >= len {
            return Some(Token::EoF);
        }
        let start = self.pos;
        let c = self.chars[start];
        if is_decimal_digit(c) {
            let mut end: usize = start + 1;
            let mut seen: usize = 0;
            proof {
                let first = self.chars@.subrange(start as int, end as int);
                assert(first.drop_last() =~= Seq::<char>::empty());
                assert(points(first.drop_last()) == 0);
                assert(first.last() != '.');
            }
            while end < len && continues(self.chars[end])
                invariant
                    len == self.chars.len(),
                    start < end <= len,
                    numeral_end(self.chars@, start + 1) == numeral_end(self.chars@, end as int),
                    seen == points(self.chars@.subrange(start as int, end as int)),
                    seen <= end - start,
                decreases len - end,
            {
                assert(self.chars@.subrange(start as int, end + 1).drop_last()
                    =~= self.chars@.subrange(start as int, end as int));
                if self.chars[end] == '.' {
                    seen += 1;
                }
                end += 1;
            }
            self.pos = end;
            if (end < len && self.chars[end] == '(') || seen > 1 {
                None
            } else {
                Some(Token::Num(string_of(&self.chars, start, end)))
            }
        } else {
            self.pos = start + 1;
            single(c)
        }
    }
}

/// Decides [`is_digit`].
fn is_decimal_digit(c: char) -> (b: bool)
    ensures
        b == is_digit(c),
{
    c >= '0' && c <= '9'
}

/// Decides [`continues_numeral`].
fn continues(c: char) -> (b: bool)
    ensures
        b == continues_numeral(c),
{
    is_decimal_digit(c) || c == '.'
}

/// The token of a single character: [`symbol`].
fn single(c: char) -> (token: Option<Token>)
    ensures
        yielded(token) == symbol(c),
{
    if c == '+' {
        Some(Token::Add)
    } else if c == '-' {
        Some(Token::Subtract)
    } else if c == '*' {
        Some(Token::Multiply)
    } else if c == '/' {
        Some(Token::Divide)
    } else if c == '^' {
        Some(Token::Caret)
    } else if c == '(' {
        Some(Token::LeftParen)
    } else if c == ')' {
        Some(Token::RightParen)
    } else {
        None
    }
}

} // verus!
