use parsemaths::ast::Node;
use parsemaths::ast::Node::{Add, Caret, Divide, Multiply, Negative, Number, Subtract};
use parsemaths::parser::{ParseError, Parser};
use parsemaths::token::{OperPrec, Token};

fn n(text: &str) -> Box<Node> {
    Box::new(Number(text.to_string()))
}

fn parse(text: &str) -> Result<Node, ParseError> {
    Parser::new(text)?.parse()
}

/// The value of a tree in floating point, each leaf read as the number that
/// its text writes.
fn value(tree: &Node) -> f64 {
    match tree {
        Number(text) => text.parse::<f64>().unwrap(),
        Add(l, r) => value(l) + value(r),
        Subtract(l, r) => value(l) - value(r),
        Multiply(l, r) => value(l) * value(r),
        Divide(l, r) => value(l) / value(r),
        Caret(l, r) => value(l).powf(value(r)),
        Negative(e) => -value(e),
    }
}

fn invalid_operator(result: Result<Node, ParseError>) -> String {
    match result {
        Err(ParseError::InvalidOperator(message)) => message,
        other => panic!("no InvalidOperator: {:?}", other),
    }
}

fn unable_to_parse(result: Result<Node, ParseError>) -> String {
    match result {
        Err(ParseError::UnableToParse(message)) => message,
        other => panic!("no UnableToParse: {:?}", other),
    }
}

#[test]
fn test_addition() {
    let mut parser = Parser::new("1+2").unwrap();
    let expected = Add(n("1"), n("2"));
    assert_eq!(parser.parse().unwrap(), expected);
}

#[test]
fn test_expr1() {
    let ast = Parser::new("1+2-3").unwrap().parse().unwrap();
    assert_eq!(ast, Subtract(Box::new(Add(n("1"), n("2"))), n("3")));
    assert_eq!(value(&ast), 0.0);
}

#[test]
fn test_expr2() {
    let ast = Parser::new("3+2-1*5/4").unwrap().parse().unwrap();
    let product = Divide(Box::new(Multiply(n("1"), n("5"))), n("4"));
    assert_eq!(ast, Subtract(Box::new(Add(n("3"), n("2"))), Box::new(product)));
    assert_eq!(value(&ast), 3.75);
}

#[test]
fn tighter_operator_takes_the_operand() {
    assert_eq!(parse("1+2*3").unwrap(), Add(n("1"), Box::new(Multiply(n("2"), n("3")))));
    assert_eq!(parse("1*2+3").unwrap(), Add(Box::new(Multiply(n("1"), n("2"))), n("3")));
    assert_eq!(parse("2*3^2").unwrap(), Multiply(n("2"), Box::new(Caret(n("3"), n("2")))));
}

#[test]
fn power_groups_from_the_right() {
    let ast = parse("2^3^2").unwrap();
    assert_eq!(ast, Caret(n("2"), Box::new(Caret(n("3"), n("2")))));
    assert_eq!(value(&ast), 512.0);
}

#[test]
fn longer_row_of_powers_groups_from_the_right() {
    let ast = parse("2^3^2^1").unwrap();
    let last = Caret(n("2"), n("1"));
    assert_eq!(ast, Caret(n("2"), Box::new(Caret(n("3"), Box::new(last)))));
    assert_eq!(value(&ast), 512.0);
}

#[test]
fn power_in_brackets_is_the_base() {
    let ast = parse("(2^3)^2").unwrap();
    assert_eq!(ast, Caret(Box::new(Caret(n("2"), n("3"))), n("2")));
    assert_eq!(value(&ast), 64.0);
}

#[test]
fn power_ends_at_a_looser_operator() {
    let ast = parse("2^3*4^2^1+1").unwrap();
    let left = Caret(n("2"), n("3"));
    let right = Caret(n("4"), Box::new(Caret(n("2"), n("1"))));
    assert_eq!(ast, Add(Box::new(Multiply(Box::new(left), Box::new(right))), n("1")));
    assert_eq!(value(&ast), 129.0);
}

#[test]
fn number_with_two_points_is_an_error() {
    assert_eq!(invalid_operator(parse("1.2.3")), "Invalid character");
    assert_eq!(invalid_operator(parse("2*(1..5)")), "Invalid character");
    assert_eq!(parse("1)2.3.4").unwrap(), Number("1".to_string()));
}

#[test]
fn division_groups_from_the_left() {
    let ast = parse("8/4/2").unwrap();
    assert_eq!(ast, Divide(Box::new(Divide(n("8"), n("4"))), n("2")));
    assert_eq!(value(&ast), 1.0);
}

#[test]
fn minus_binds_tighter_than_power() {
    let ast = parse("-2^2").unwrap();
    assert_eq!(ast, Caret(Box::new(Negative(n("2"))), n("2")));
    assert_eq!(value(&ast), 4.0);
}

#[test]
fn minus_after_an_operator_negates() {
    let ast = parse("2--3").unwrap();
    assert_eq!(ast, Subtract(n("2"), Box::new(Negative(n("3")))));
    assert_eq!(value(&ast), 5.0);
}

#[test]
fn adjacent_groups_are_multiplied() {
    let ast = parse("(2)(3)").unwrap();
    assert_eq!(ast, Multiply(n("2"), n("3")));
    assert_eq!(value(&ast), 6.0);
}

#[test]
fn second_group_is_read_with_the_floor_of_a_product() {
    let ast = parse("(2)(3)^2+1").unwrap();
    let power = Caret(n("3"), n("2"));
    assert_eq!(ast, Add(Box::new(Multiply(n("2"), Box::new(power))), n("1")));
    assert_eq!(value(&ast), 19.0);
}

#[test]
fn brackets_group() {
    let ast = parse("2*3+4*(4-5)+2^3/4").unwrap();
    assert_eq!(value(&ast), 4.0);
    assert_eq!(parse("(1+2)*3").unwrap(), Multiply(Box::new(Add(n("1"), n("2"))), n("3")));
}

#[test]
fn real_exponent() {
    let ast = parse("2^0.5").unwrap();
    assert_eq!(ast, Caret(n("2"), n("0.5")));
    assert_eq!(value(&ast), 2.0_f64.sqrt());
}

#[test]
fn division_by_zero_is_no_parse_error() {
    let ast = parse("1/0").unwrap();
    assert_eq!(value(&ast), f64::INFINITY);
}

#[test]
fn unclosed_bracket_is_an_error() {
    assert_eq!(invalid_operator(parse("(1+2")), "Expected RightParen\tGot EoF");
}

#[test]
fn number_where_a_bracket_should_close_is_an_error() {
    assert_eq!(invalid_operator(parse("((1)2)")), "Expected RightParen\tGot Num(2)");
}

#[test]
fn empty_text_is_an_error() {
    assert_eq!(unable_to_parse(parse("")), "Unable to parse");
}

#[test]
fn white_space_is_an_error() {
    assert_eq!(invalid_operator(parse("   ")), "Invalid character");
    assert_eq!(invalid_operator(parse("1 + 2")), "Invalid character");
}

#[test]
fn missing_operand_is_an_error() {
    assert_eq!(unable_to_parse(parse("1+")), "Unable to parse");
    assert_eq!(unable_to_parse(parse("*2")), "Unable to parse");
    assert_eq!(unable_to_parse(parse("()")), "Unable to parse");
}

#[test]
fn number_before_a_bracket_is_an_error() {
    assert_eq!(invalid_operator(parse("3(4)")), "Invalid character");
    assert_eq!(invalid_operator(parse("2*3+4(4-5)")), "Invalid character");
}

#[test]
fn what_follows_the_expression_is_not_looked_at() {
    assert_eq!(parse("1)#").unwrap(), Number("1".to_string()));
    assert_eq!(parse("(1)2").unwrap(), Number("1".to_string()));
}

#[test]
fn error_is_written_with_its_message() {
    let e = parse("(1").unwrap_err();
    assert_eq!(e.to_string(), "Error in evaluating Expected RightParen\tGot EoF");
    let e = parse("").unwrap_err();
    assert_eq!(e.to_string(), "Error in evaluating Unable to parse");
}

#[test]
fn copy_of_a_tree_is_the_same_tree() {
    let ast = parse("-(1+2)*3^4/5-6").unwrap();
    let copy = ast.clone();
    assert_eq!(copy, ast);
    assert_eq!(value(&copy).to_bits(), value(&ast).to_bits());
    assert_eq!(value(&ast).to_bits(), value(&ast).to_bits());
}

#[test]
fn precedence_of_each_token() {
    assert_eq!(Token::Add.get_oper_prec(), OperPrec::AddSub);
    assert_eq!(Token::Subtract.get_oper_prec(), OperPrec::AddSub);
    assert_eq!(Token::Multiply.get_oper_prec(), OperPrec::MulDiv);
    assert_eq!(Token::Divide.get_oper_prec(), OperPrec::MulDiv);
    assert_eq!(Token::Caret.get_oper_prec(), OperPrec::Power);
    assert_eq!(Token::LeftParen.get_oper_prec(), OperPrec::DefaultZero);
    assert_eq!(Token::RightParen.get_oper_prec(), OperPrec::DefaultZero);
    assert_eq!(Token::Num("1".to_string()).get_oper_prec(), OperPrec::DefaultZero);
    assert_eq!(Token::EoF.get_oper_prec(), OperPrec::DefaultZero);
}

#[test]
fn precedence_levels_are_ordered() {
    let levels = [
        OperPrec::DefaultZero,
        OperPrec::AddSub,
        OperPrec::MulDiv,
        OperPrec::Power,
        OperPrec::Negative,
    ];
    for (i, a) in levels.iter().enumerate() {
        for (j, b) in levels.iter().enumerate() {
            assert_eq!(a.is_below(b), i < j);
            assert_eq!(a < b, i < j);
        }
    }
}

#[test]
fn tokens_are_compared_by_variant_and_text() {
    assert!(Token::Add.same_as(&Token::Add));
    assert!(!Token::Add.same_as(&Token::Subtract));
    assert!(Token::Num("1".to_string()).same_as(&Token::Num("1".to_string())));
    assert!(!Token::Num("1".to_string()).same_as(&Token::Num("1.0".to_string())));
    assert!(!Token::EoF.same_as(&Token::RightParen));
}

#[test]
fn tokens_are_named_for_messages() {
    assert_eq!(Token::LeftParen.name(), "LeftParen");
    assert_eq!(Token::EoF.name(), "EoF");
    assert_eq!(Token::Num("2.5".to_string()).name(), "Num(2.5)");
}
