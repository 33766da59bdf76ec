use math_scrabble::rational::Rational;
use math_scrabble::tiles::{Digit, MathOperation, Tile, TileOnBoard, TileStatus};

fn fraction_of(n: i64, d: i64) -> Rational {
    Rational::from_integer(n).checked_div(&Rational::from_integer(d)).unwrap()
}

#[test]
fn tile_scores() {
    assert_eq!(Tile::Digit(Digit::D0).score(), 1);
    assert_eq!(Tile::Digit(Digit::D4).score(), 1);
    assert_eq!(Tile::Digit(Digit::D5).score(), 2);
    assert_eq!(Tile::Digit(Digit::D9).score(), 2);
    assert_eq!(Tile::Op(MathOperation::Plus).score(), 1);
    assert_eq!(Tile::Op(MathOperation::Minus).score(), 2);
    assert_eq!(Tile::Op(MathOperation::Times).score(), 3);
    assert_eq!(Tile::Op(MathOperation::Div).score(), 4);
    assert_eq!(Tile::EqualsSign.score(), 0);
}

#[test]
fn the_initial_bag() {
    let bag = Tile::initial_bag_of_tiles();
    assert_eq!(bag.len(), 96);
    assert_eq!(bag[0], Tile::Digit(Digit::D0));
    assert_eq!(bag[6], Tile::Digit(Digit::D1));
    assert_eq!(bag[60], Tile::Op(MathOperation::Plus));
    assert_eq!(bag[95], Tile::Op(MathOperation::Div));
    assert!(!bag.contains(&Tile::EqualsSign));
}

#[test]
fn digits_and_operators() {
    let digits = Digit::all();
    assert_eq!(digits.len(), 10);
    for (i, d) in digits.iter().enumerate() {
        assert_eq!(d.value(), i as i64);
    }
    assert_eq!(
        MathOperation::all(),
        vec![MathOperation::Plus, MathOperation::Minus, MathOperation::Times, MathOperation::Div]
    );
    assert_eq!(MathOperation::Plus.precedence(), 2);
    assert_eq!(MathOperation::Minus.precedence(), 2);
    assert_eq!(MathOperation::Times.precedence(), 1);
    assert_eq!(MathOperation::Div.precedence(), 1);
}

#[test]
fn operators_evaluate_fractions() {
    let a = fraction_of(3, 4);
    let b = fraction_of(1, 4);
    assert_eq!(MathOperation::Plus.eval(a, b), Some(Rational::from_integer(1)));
    assert_eq!(MathOperation::Minus.eval(a, b), Some(fraction_of(1, 2)));
    assert_eq!(MathOperation::Times.eval(a, b), Some(fraction_of(3, 16)));
    assert_eq!(MathOperation::Div.eval(a, b), Some(Rational::from_integer(3)));
    assert_eq!(MathOperation::Div.eval(a, Rational::from_integer(0)), None);
}

#[test]
fn operators_keep_lowest_terms() {
    let r = MathOperation::Minus.eval(fraction_of(1, 4), fraction_of(3, 4)).unwrap();
    assert_eq!((r.numer(), r.denom()), (-1, 2));
    let r = MathOperation::Div.eval(fraction_of(1, 2), Rational::from_integer(-3)).unwrap();
    assert_eq!((r.numer(), r.denom()), (-1, 6));
    let r = MathOperation::Times.eval(fraction_of(2, 3), fraction_of(3, 2)).unwrap();
    assert_eq!((r.numer(), r.denom()), (1, 1));
    let r = MathOperation::Plus.eval(fraction_of(1, 6), fraction_of(1, 3)).unwrap();
    assert_eq!((r.numer(), r.denom()), (1, 2));
}

#[test]
fn tiles_as_text() {
    assert_eq!(Tile::Digit(Digit::D7).to_string(), "7");
    assert_eq!(Tile::Op(MathOperation::Times).to_string(), "*");
    assert_eq!(Tile::EqualsSign.to_string(), "=");
    assert_eq!(Digit::D0.to_string(), "0");
    assert_eq!(MathOperation::Minus.to_string(), "-");
}

#[test]
fn tiles_on_the_board() {
    let mut t = TileOnBoard::new(Tile::Digit(Digit::D3));
    assert_eq!(t.content(), Tile::Digit(Digit::D3));
    assert_eq!(t.status(), TileStatus::Temporary);
    t.mark_as_permanent();
    assert_eq!(t.status(), TileStatus::Permanent);
    assert_eq!(t.content(), Tile::Digit(Digit::D3));
}
