use math_scrabble::board::{eval_expression, InvalidEquation};
use math_scrabble::expression::try_eval_expression;
use math_scrabble::rational::Rational;
use math_scrabble::tiles::{Digit, MathOperation, Tile};

fn quotient(n: i64, d: i64) -> Rational {
    Rational::from_integer(n).checked_div(&Rational::from_integer(d)).unwrap()
}

fn parse_and_eval_expression(text: &str) -> Result<Rational, InvalidEquation> {
    let tiles: Vec<Tile> = text
        .chars()
        .map(|c| match c {
            '+' => Tile::Op(MathOperation::Plus),
            '-' => Tile::Op(MathOperation::Minus),
            '*' => Tile::Op(MathOperation::Times),
            '/' => Tile::Op(MathOperation::Div),
            '0' => Tile::Digit(Digit::D0),
            '1' => Tile::Digit(Digit::D1),
            '2' => Tile::Digit(Digit::D2),
            '3' => Tile::Digit(Digit::D3),
            '4' => Tile::Digit(Digit::D4),
            '5' => Tile::Digit(Digit::D5),
            '6' => Tile::Digit(Digit::D6),
            '7' => Tile::Digit(Digit::D7),
            '8' => Tile::Digit(Digit::D8),
            '9' => Tile::Digit(Digit::D9),
            _ => panic!(),
        })
        .collect();
    eval_expression(tiles.as_slice())
}

#[test]
fn test_eval_expressions() {
    assert_eq!(parse_and_eval_expression("2*2+2"), Ok(Rational::from_integer(6)), "2*2+2");
    assert_eq!(parse_and_eval_expression("2+2*2"), Ok(Rational::from_integer(6)), "2+2*2");
    assert_eq!(parse_and_eval_expression("2-3-4"), Ok(Rational::from_integer(-5)), "2-3-4");
    assert_eq!(parse_and_eval_expression("2-3+4"), Ok(Rational::from_integer(3)), "2-3+4");
    assert_eq!(parse_and_eval_expression("2+3-4"), Ok(Rational::from_integer(1)), "2+3-4");
    assert_eq!(parse_and_eval_expression("2*2+3*3"), Ok(Rational::from_integer(13)), "2*2+3*3");
    assert_eq!(parse_and_eval_expression("2+2*3+3"), Ok(Rational::from_integer(11)), "2+2*3+3");
    assert_eq!(parse_and_eval_expression("9/0"), Err(InvalidEquation::DivByZero), "9/0");
    assert_eq!(parse_and_eval_expression("/3"), Err(InvalidEquation::ParsingError), "/3");
    assert_eq!(parse_and_eval_expression("01/3"), Err(InvalidEquation::LeadingZero), "01/3");
}

#[test]
fn fractions_stay_exact() {
    assert_eq!(parse_and_eval_expression("1/2"), Ok(quotient(1, 2)));
    assert_eq!(parse_and_eval_expression("7/2*2"), Ok(Rational::from_integer(7)));
    assert_eq!(parse_and_eval_expression("1/3+1/6"), Ok(quotient(1, 2)));
    assert_eq!(parse_and_eval_expression("2*3-8/4"), Ok(Rational::from_integer(4)));
}

#[test]
fn multi_digit_numbers() {
    assert_eq!(parse_and_eval_expression("12/4"), Ok(Rational::from_integer(3)));
    assert_eq!(parse_and_eval_expression("100-1"), Ok(Rational::from_integer(99)));
    assert_eq!(parse_and_eval_expression("0"), Ok(Rational::from_integer(0)));
    assert_eq!(parse_and_eval_expression("10"), Ok(Rational::from_integer(10)));
}

#[test]
fn malformed_expressions() {
    assert_eq!(parse_and_eval_expression(""), Err(InvalidEquation::ParsingError));
    assert_eq!(parse_and_eval_expression("1+"), Err(InvalidEquation::ParsingError));
    assert_eq!(parse_and_eval_expression("1++2"), Err(InvalidEquation::ParsingError));
    assert_eq!(parse_and_eval_expression("3+05"), Err(InvalidEquation::LeadingZero));
    assert_eq!(parse_and_eval_expression("1-1/0"), Err(InvalidEquation::DivByZero));
}

#[test]
fn overflow_is_reported_as_a_failed_operation() {
    // 9999999999 * 9999999999 does not fit in 64 bits: the checked
    // multiplication fails, which the evaluation reports as an invalid step.
    let tiles: Vec<Tile> = "9999999999*9999999999"
        .chars()
        .map(|c| match c {
            '*' => Tile::Op(MathOperation::Times),
            _ => Tile::Digit(Digit::D9),
        })
        .collect();
    assert_eq!(try_eval_expression(tiles.as_slice()), Some(Err(InvalidEquation::DivByZero)));
}

#[test]
fn invalid_equation_messages() {
    assert_eq!(
        InvalidEquation::OperatorsWithoutEqualsSign.to_string(),
        "Equations without equals sign are allowed only to have digits."
    );
    assert_eq!(
        InvalidEquation::MoreThanOneEqualsSign.to_string(),
        "The equation contains more than one equals sign."
    );
    assert_eq!(
        InvalidEquation::LeadingZero.to_string(),
        "The equation contains a number starting with leading zero."
    );
    assert_eq!(InvalidEquation::ParsingError.to_string(), "Could not parse the equation.");
    assert_eq!(
        InvalidEquation::DivByZero.to_string(),
        "Division by zero encountered while evaluating the equation."
    );
    assert_eq!(
        InvalidEquation::SidesNotEqual(quotient(7, 2), Rational::from_integer(-3)).to_string(),
        "Left hand side is equal to 7/2 and right hand side is equal to -3."
    );
}
