use parsemaths::token::Token;
use parsemaths::tokenizer::Tokenizer;

fn num(text: &str) -> Token {
    Token::Num(text.to_string())
}

fn value(token: &Token) -> f64 {
    match token {
        Token::Num(text) => text.parse::<f64>().unwrap(),
        other => panic!("no number: {:?}", other),
    }
}

#[test]
fn test_positive_integer() {
    let mut tokenizer = Tokenizer::new("34");
    let token = tokenizer.next().unwrap();
    assert_eq!(token, num("34"));
    assert_eq!(value(&token), 34.0);
}

#[test]
fn test_decimal_number() {
    let mut tokenizer = Tokenizer::new("34.5");
    let token = tokenizer.next().unwrap();
    assert_eq!(token, num("34.5"));
    assert_eq!(value(&token), 34.5);
}

#[test]
fn invalid_characters_hold_no_token() {
    let mut tokenizer = Tokenizer::new("#$#");
    assert_eq!(tokenizer.next(), None);
    assert_eq!(tokenizer.next(), None);
    assert_eq!(tokenizer.next(), None);
    assert_eq!(tokenizer.next(), Some(Token::EoF));
}

#[test]
fn every_symbol_is_a_token() {
    let mut tokenizer = Tokenizer::new("+-*/^()");
    assert_eq!(tokenizer.next(), Some(Token::Add));
    assert_eq!(tokenizer.next(), Some(Token::Subtract));
    assert_eq!(tokenizer.next(), Some(Token::Multiply));
    assert_eq!(tokenizer.next(), Some(Token::Divide));
    assert_eq!(tokenizer.next(), Some(Token::Caret));
    assert_eq!(tokenizer.next(), Some(Token::LeftParen));
    assert_eq!(tokenizer.next(), Some(Token::RightParen));
    assert_eq!(tokenizer.next(), Some(Token::EoF));
}

#[test]
fn end_marker_is_given_again() {
    let mut tokenizer = Tokenizer::new("");
    assert_eq!(tokenizer.next(), Some(Token::EoF));
    assert_eq!(tokenizer.next(), Some(Token::EoF));
}

#[test]
fn literal_runs_to_the_first_other_character() {
    let mut tokenizer = Tokenizer::new("12.5+3");
    assert_eq!(tokenizer.next(), Some(num("12.5")));
    assert_eq!(tokenizer.next(), Some(Token::Add));
    assert_eq!(tokenizer.next(), Some(num("3")));
    assert_eq!(tokenizer.next(), Some(Token::EoF));
}

#[test]
fn literal_may_end_in_a_point() {
    let mut tokenizer = Tokenizer::new("7.");
    let token = tokenizer.next().unwrap();
    assert_eq!(token, num("7."));
    assert_eq!(value(&token), 7.0);
}

#[test]
fn literal_before_a_bracket_is_given_up() {
    let mut tokenizer = Tokenizer::new("3(4)");
    assert_eq!(tokenizer.next(), None);
    assert_eq!(tokenizer.next(), Some(Token::LeftParen));
    assert_eq!(tokenizer.next(), Some(num("4")));
    assert_eq!(tokenizer.next(), Some(Token::RightParen));
    assert_eq!(tokenizer.next(), Some(Token::EoF));
}

#[test]
fn white_space_holds_no_token() {
    let mut tokenizer = Tokenizer::new(" 1");
    assert_eq!(tokenizer.next(), None);
    assert_eq!(tokenizer.next(), Some(num("1")));
}

#[test]
fn letters_and_other_digits_hold_no_token() {
    let mut tokenizer = Tokenizer::new("x\u{0663}");
    assert_eq!(tokenizer.next(), None);
    assert_eq!(tokenizer.next(), None);
    assert_eq!(tokenizer.next(), Some(Token::EoF));
}

#[test]
fn literal_with_two_points_is_passed_over() {
    let mut tokenizer = Tokenizer::new("1.2.3+4");
    assert_eq!(tokenizer.next(), None);
    assert_eq!(tokenizer.next(), Some(Token::Add));
    assert_eq!(tokenizer.next(), Some(num("4")));
    assert_eq!(tokenizer.next(), Some(Token::EoF));
}

#[test]
fn points_are_counted_in_the_whole_literal() {
    for text in ["1..2", "1.2.", "0.0.0", "12.3.45.6"] {
        let mut tokenizer = Tokenizer::new(text);
        assert_eq!(tokenizer.next(), None, "{}", text);
        assert_eq!(tokenizer.next(), Some(Token::EoF), "{}", text);
    }
    for text in ["1.2", "12.", "120", "0.00"] {
        let mut tokenizer = Tokenizer::new(text);
        assert_eq!(tokenizer.next(), Some(num(text)), "{}", text);
        assert_eq!(tokenizer.next(), Some(Token::EoF), "{}", text);
    }
}

#[test]
fn point_in_front_is_no_literal() {
    let mut tokenizer = Tokenizer::new(".1.2");
    assert_eq!(tokenizer.next(), None);
    assert_eq!(tokenizer.next(), Some(num("1.2")));
    assert_eq!(tokenizer.next(), Some(Token::EoF));
}
