use math_scrabble::board::{Board, BoardField, EquationDirection, EquationToVerify, InvalidBoard, InvalidEquation};
use math_scrabble::consts::board_field_positions;
use math_scrabble::rational::Rational;
use math_scrabble::tiles::{Digit, MathOperation, Tile, TileOnBoard, TileStatus};

fn board_tile(c: char) -> Tile {
    match c {
        '+' => Tile::Op(MathOperation::Plus),
        '-' => Tile::Op(MathOperation::Minus),
        '*' => Tile::Op(MathOperation::Times),
        '/' => Tile::Op(MathOperation::Div),
        '=' => Tile::EqualsSign,
        '0' => Tile::Digit(Digit::D0),
        '1' => Tile::Digit(Digit::D1),
        '2' => Tile::Digit(Digit::D2),
        '3' => Tile::Digit(Digit::D3),
        '4' => Tile::Digit(Digit::D4),
        '5' => Tile::Digit(Digit::D5),
        '6' => Tile::Digit(Digit::D6),
        '7' => Tile::Digit(Digit::D7),
        '8' => Tile::Digit(Digit::D8),
        '9' => Tile::Digit(Digit::D9),
        _ => panic!(),
    }
}

fn place_row(board: &mut Board, x: usize, y: usize, text: &str) {
    for (i, c) in text.chars().enumerate() {
        board.letters[x][y + i] = Some(TileOnBoard::new(board_tile(c)));
    }
}

fn place_column(board: &mut Board, x: usize, y: usize, text: &str) {
    for (i, c) in text.chars().enumerate() {
        board.letters[x + i][y] = Some(TileOnBoard::new(board_tile(c)));
    }
}

fn equation(text: &str) -> EquationToVerify {
    EquationToVerify {
        initial_position: (0, 0),
        direction: EquationDirection::Horizontal,
        tiles: text.chars().map(board_tile).collect(),
    }
}

#[test]
fn new_board_has_the_bonus_squares() {
    let board = Board::new();
    assert_eq!(board.board.len(), 15);
    assert!(board.board.iter().all(|row| row.len() == 15));
    assert!(board.letters.iter().all(|row| row.len() == 15 && row.iter().all(|c| c.is_none())));
    assert_eq!(board.board[7][7], BoardField::DoubleEquation);
    assert_eq!(board.board[0][0], BoardField::TripleEquation);
    assert_eq!(board.board[0][3], BoardField::DoubleSymbol);
    assert_eq!(board.board[9][9], BoardField::TripleSymbol);
    assert_eq!(board.board[7][5], BoardField::Standard);
}

#[test]
fn board_positions_are_row_major() {
    let positions = board_field_positions();
    assert_eq!(positions.len(), 225);
    assert_eq!(positions[0], (0, 0));
    assert_eq!(positions[14], (0, 14));
    assert_eq!(positions[15], (1, 0));
    assert_eq!(positions[224], (14, 14));
}

#[test]
fn first_move_scores_and_becomes_permanent() {
    let mut board = Board::new();
    place_row(&mut board, 7, 5, "1+1=2");
    // 1 + 1 + 1 + 0 + 1 points, doubled by the central square.
    assert_eq!(board.verify_and_grade_move().ok(), Some(8));
    for y in 5..10 {
        assert_eq!(board.letters[7][y].unwrap().status(), TileStatus::Permanent);
    }
    // Nothing new on the board now.
    assert!(matches!(board.verify_and_grade_move(), Err(InvalidBoard::NoNewTilesOnBoard)));
}

#[test]
fn second_move_uses_a_permanent_tile_and_a_triple_symbol() {
    let mut board = Board::new();
    place_row(&mut board, 7, 5, "1+1=2");
    assert_eq!(board.verify_and_grade_move().ok(), Some(8));
    // "2*3=6" downwards from the permanent 2; the 3 lies on a triple symbol.
    place_column(&mut board, 8, 9, "*3=6");
    assert_eq!(board.verify_and_grade_move().ok(), Some(1 + 3 + 3 * 1 + 0 + 2));
}

#[test]
fn using_every_tile_of_the_hand_earns_the_bonus() {
    let mut board = Board::new();
    // Nine tiles besides the equals sign. The '+' at (7,3) and the '0' at
    // (7,11) lie on double symbols, the '+' at (7,7) on a double equation:
    // (1+2+1+1+1+1+1+0+1+2) * 2 = 22 points, plus 50.
    place_row(&mut board, 7, 2, "1+2+3+4=10");
    assert_eq!(board.verify_and_grade_move().ok(), Some(72));

    // Six tiles besides the equals sign: no bonus.
    let mut board = Board::new();
    place_row(&mut board, 7, 3, "1+2+3=6");
    // '1' on the double symbol (7,3): (2+1+1+1+1+0+2) * 2 = 16.
    assert_eq!(board.verify_and_grade_move().ok(), Some(16));
}

#[test]
fn refused_moves() {
    let mut board = Board::new();
    place_row(&mut board, 0, 0, "1=1");
    assert!(matches!(board.verify_and_grade_move(), Err(InvalidBoard::FirstWordMustBeOnCenter)));

    let mut board = Board::new();
    board.letters[7][7] = Some(TileOnBoard::new(board_tile('1')));
    board.letters[8][8] = Some(TileOnBoard::new(board_tile('1')));
    assert!(matches!(board.verify_and_grade_move(), Err(InvalidBoard::NotAllTilesInOneLine)));

    let mut board = Board::new();
    place_row(&mut board, 7, 6, "1=1");
    board.letters[7][10] = Some(TileOnBoard::new(board_tile('2')));
    assert!(matches!(board.verify_and_grade_move(), Err(InvalidBoard::TilesAreNotInOneEquation)));

    let mut board = Board::new();
    place_row(&mut board, 7, 6, "1=1");
    assert_eq!(board.verify_and_grade_move().ok(), Some(2 * 2));
    place_row(&mut board, 3, 3, "2=2");
    assert!(matches!(board.verify_and_grade_move(), Err(InvalidBoard::TilesAreNotConnected)));
}

#[test]
fn refused_equation_leaves_the_board_unchanged() {
    let mut board = Board::new();
    place_row(&mut board, 7, 5, "1+1=3");
    let res = board.verify_and_grade_move();
    match &res {
        Err(InvalidBoard::InvalidEquation(eq, err)) => {
            assert_eq!(eq.initial_position, (7, 5));
            assert_eq!(eq.direction, EquationDirection::Horizontal);
            assert_eq!(*err, InvalidEquation::SidesNotEqual(Rational::from_integer(2), Rational::from_integer(3)));
        }
        _ => panic!("expected an invalid equation"),
    }
    assert_eq!(
        res.unwrap_err().to_string(),
        "Horizontal equation starting at (8, 6) [1+1=3] is not valid. Left hand side is equal to 2 and right hand side is equal to 3."
    );
    for y in 5..10 {
        assert_eq!(board.letters[7][y].unwrap().status(), TileStatus::Temporary);
    }
}

#[test]
fn verifying_equations() {
    assert_eq!(equation("12").verify(), Ok(()));
    assert_eq!(equation("012").verify(), Err(InvalidEquation::LeadingZero));
    assert_eq!(equation("1+2").verify(), Err(InvalidEquation::OperatorsWithoutEqualsSign));
    assert_eq!(equation("1=1=1").verify(), Err(InvalidEquation::MoreThanOneEqualsSign));
    assert_eq!(equation("1+1=2").verify(), Ok(()));
    assert_eq!(equation("6/4=3/2").verify(), Ok(()));
    assert_eq!(equation("1/0=0").verify(), Err(InvalidEquation::DivByZero));
    assert_eq!(
        equation("1+1=3").verify(),
        Err(InvalidEquation::SidesNotEqual(Rational::from_integer(2), Rational::from_integer(3)))
    );
    assert!(equation("1+1=2").has_equals_sign());
    assert!(!equation("11").has_equals_sign());
}

#[test]
fn equation_positions_follow_the_direction() {
    let eq = EquationToVerify {
        initial_position: (3, 4),
        direction: EquationDirection::Vertical,
        tiles: "1=1".chars().map(board_tile).collect(),
    };
    assert_eq!(eq.tile_positions(), vec![(3, 4), (4, 4), (5, 4)]);
    assert_eq!(eq.to_string(), "Vertical equation starting at (4, 5) [1=1]");
    let eq = EquationToVerify {
        initial_position: (3, 4),
        direction: EquationDirection::Horizontal,
        tiles: "1=1".chars().map(board_tile).collect(),
    };
    assert_eq!(eq.tile_positions(), vec![(3, 4), (3, 5), (3, 6)]);
    assert_eq!(EquationDirection::Horizontal.opposite(), EquationDirection::Vertical);
}

#[test]
fn refusal_messages() {
    assert_eq!(
        InvalidBoard::NoNewTilesOnBoard.to_string(),
        "No new tiles on board (if you want to pass or reroll, choose appropriate option)."
    );
    assert_eq!(
        InvalidBoard::FirstWordMustBeOnCenter.to_string(),
        "The first equation must cover the central square."
    );
    assert_eq!(InvalidBoard::NotAllTilesInOneLine.to_string(), "All tiles must be in one line.");
    assert_eq!(
        InvalidBoard::TilesAreNotInOneEquation.to_string(),
        "All tiles should belong to one main equation."
    );
    assert_eq!(InvalidBoard::TilesAreNotConnected.to_string(), "All tiles should be connected.");
}
