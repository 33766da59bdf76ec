use vstd::prelude::*;

verus! {

/// Side length of the square board.
pub const BOARD_SIZE: usize = 15;

/// Longest name (in bytes) a player may type in the lobby.
pub const MAX_NAME_LEN: usize = 16;

/// How many entries the highscore table keeps.
pub const HIGHSCORES_STORED: usize = 10;

/// Copies of every digit in a fresh bag.
pub const DIGITS_IN_BAG: usize = 6;

/// Copies of every operator in a fresh bag.
pub const OPERATORS_IN_BAG: usize = 9;

/// Each player holds nine digits or operators ...
pub const PLAYER_HAND_SIZE_WITHOUT_EQUALS_SIGN: usize = 9;

/// ... and one equals sign.
pub const PLAYER_HAND_SIZE_WITH_EQUALS_SIGN: usize = 10;

/// Extra points for a move that uses every digit and operator of the hand.
pub const BONUS_FOR_USING_ALL_TILES: u64 = 50;

pub const DOUBLE_SYMBOL_POSITIONS: [(usize, usize); 24] = [
    (0, 3), (3, 0), (11, 0), (14, 3), (14, 11), (11, 14), (3, 14), (0, 11),
    (2, 6), (3, 7), (2, 8), (6, 2), (7, 3), (8, 2), (12, 6), (11, 7),
    (12, 8), (6, 12), (7, 11), (8, 12), (6, 6), (8, 6), (6, 8), (8, 8),
];

pub const TRIPLE_SYMBOL_POSITIONS: [(usize, usize); 12] = [
    (1, 5), (5, 5), (5, 1), (9, 1), (9, 5), (13, 5),
    (1, 9), (5, 9), (5, 13), (9, 13), (9, 9), (13, 9),
];

pub const DOUBLE_EQUATION_POSITIONS: [(usize, usize); 17] = [
    (1, 1), (2, 2), (3, 3), (4, 4), (10, 10), (11, 11), (12, 12), (13, 13),
    (1, 13), (2, 12), (3, 11), (4, 10), (10, 4), (11, 3), (12, 2), (13, 1), (7, 7),
];

pub const TRIPLE_EQUATION_POSITIONS: [(usize, usize); 8] = [
    (0, 0), (7, 0), (14, 0), (14, 7), (14, 14), (7, 14), (0, 14), (0, 7),
];

/// The board positions in row-major order: `(0, 0), (0, 1), ..., (14, 14)`.
pub open spec fn field_position(i: int) -> (usize, usize) {
    ((i / 15) as usize, (i % 15) as usize)
}

/// All board positions in row-major order.
pub fn board_field_positions() -> (res: Vec<(usize, usize)>)
    ensures
        res@.len() == 225,
        forall|i: int| 0 <= i < 225 ==> #[trigger] res@[i] == field_position(i),
{
    let mut res: Vec<(usize, usize)> = Vec::new();
    let mut x: usize = 0;
    while x < BOARD_SIZE
        invariant
            x <= 15,
            res@.len() == 15 * x,
            forall|i: int| 0 <= i < res@.len() ==> #[trigger] res@[i] == field_position(i),
        decreases 15 - x,
    {
        let mut y: usize = 0;
        while y < BOARD_SIZE
            invariant
                x < 15,
                y <= 15,
                res@.len() == 15 * x + y,
                forall|i: int| 0 <= i < res@.len() ==> #[trigger] res@[i] == field_position(i),
            decreases 15 - y,
        {
            assert((15 * x + y) / 15 == x && (15 * x + y) % 15 == y) by (nonlinear_arith)
                requires y < 15;
            res.push((x, y));
            y += 1;
        }
        x += 1;
    }
    res
}

} // verus!
