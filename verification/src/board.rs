use vstd::prelude::*;

use crate::consts::{
    BOARD_SIZE, BONUS_FOR_USING_ALL_TILES, DOUBLE_EQUATION_POSITIONS, DOUBLE_SYMBOL_POSITIONS,
    PLAYER_HAND_SIZE_WITHOUT_EQUALS_SIGN, TRIPLE_EQUATION_POSITIONS, TRIPLE_SYMBOL_POSITIONS,
};
pub use crate::expression::{eval_expression, InvalidEquation};
use crate::expression::{invalid_equation_text, spec_eval_expression, try_eval_expression, EvalOutcome};
use crate::rational::{lemma_rational_of, pair_of, rational_of, same_value};
use crate::text::{decimal, u64_to_string};
use vstd::multiset::Multiset;
use crate::tiles::{tile_char, tile_score, tiles_text, Digit, Tile, TileOnBoard, TileStatus};

verus! {

/// The kind of a square of the board.
#[derive(Copy, Clone, PartialEq, Eq, Hash, Debug, Structural)]
pub enum BoardField {
    Standard,
    DoubleSymbol,
    TripleSymbol,
    DoubleEquation,
    TripleEquation,
}

impl BoardField {
    /// By how much the square multiplies the points of a new tile on it.
    pub open spec fn spec_symbol_multiplier(self) -> int {
        match self {
            BoardField::DoubleSymbol => 2,
            BoardField::TripleSymbol => 3,
            _ => 1,
        }
    }

    /// By how much the square multiplies the points of an equation through a
    /// new tile on it.
    pub open spec fn spec_equation_multiplier(self) -> int {
        match self {
            BoardField::DoubleEquation => 2,
            BoardField::TripleEquation => 3,
            _ => 1,
        }
    }

    fn symbol_multiplier(&self) -> (m: u64)
        ensures
            m == self.spec_symbol_multiplier(),
    {
        match self {
            BoardField::DoubleSymbol => 2,
            BoardField::TripleSymbol => 3,
            _ => 1,
        }
    }

    fn equation_multiplier(&self) -> (m: u64)
        ensures
            m == self.spec_equation_multiplier(),
    {
        match self {
            BoardField::DoubleEquation => 2,
            BoardField::TripleEquation => 3,
            _ => 1,
        }
    }
}

/// The direction in which an equation is read.
#[derive(Copy, Clone, PartialEq, Eq, Debug, Structural)]
pub enum EquationDirection {
    /// Along a row: the second coordinate grows.
    Horizontal,
    /// Along a column: the first coordinate grows.
    Vertical,
}

impl EquationDirection {
    pub open spec fn spec_opposite(self) -> EquationDirection {
        match self {
            EquationDirection::Horizontal => EquationDirection::Vertical,
            EquationDirection::Vertical => EquationDirection::Horizontal,
        }
    }

    /// The perpendicular direction.
    pub fn opposite(self) -> (d: EquationDirection)
        ensures
            d == self.spec_opposite(),
    {
        match self {
            EquationDirection::Horizontal => EquationDirection::Vertical,
            EquationDirection::Vertical => EquationDirection::Horizontal,
        }
    }
}

/// A line of consecutive tiles on the board, to be checked as an equation.
pub struct EquationToVerify {
    pub initial_position: (usize, usize),
    pub direction: EquationDirection,
    pub tiles: Vec<Tile>,
}

/// The mathematical content of an `EquationToVerify`.
pub struct EquationView {
    pub initial_position: (usize, usize),
    pub direction: EquationDirection,
    pub tiles: Seq<Tile>,
}

impl View for EquationToVerify {
    type V = EquationView;

    open spec fn view(&self) -> EquationView {
        EquationView {
            initial_position: self.initial_position,
            direction: self.direction,
            tiles: self.tiles@,
        }
    }
}

/// The position of the `i`-th tile of an equation.
pub open spec fn position_in(eq: EquationView, i: int) -> (int, int) {
    match eq.direction {
        EquationDirection::Horizontal => (eq.initial_position.0 as int, eq.initial_position.1 + i),
        EquationDirection::Vertical => (eq.initial_position.0 + i, eq.initial_position.1 as int),
    }
}

/// The equation lies on the board and has at least one tile.
pub open spec fn equation_on_board(eq: EquationView) -> bool {
    &&& eq.tiles.len() >= 1
    &&& match eq.direction {
        EquationDirection::Horizontal => eq.initial_position.0 < 15 && eq.initial_position.1
            + eq.tiles.len() <= 15,
        EquationDirection::Vertical => eq.initial_position.1 < 15 && eq.initial_position.0
            + eq.tiles.len() <= 15,
    }
}

/// The indices at which the equals sign stands, in increasing order.
pub open spec fn equals_indices(t: Seq<Tile>) -> Seq<int>
    decreases t.len(),
{
    if t.len() == 0 {
        Seq::empty()
    } else if t.last() is EqualsSign {
        equals_indices(t.drop_last()).push(t.len() - 1)
    } else {
        equals_indices(t.drop_last())
    }
}

/// Whether some tile is the equals sign.
pub open spec fn has_equals(t: Seq<Tile>) -> bool {
    exists|i: int| 0 <= i < t.len() && t[i] is EqualsSign
}

/// The outcome of checking an equation.
pub enum VerifyOutcome {
    Valid,
    Error(InvalidEquation),
    Panics,
}

/// An equation is valid if it is a number without a leading zero, or if it
/// has exactly one equals sign and both sides evaluate to the same value.
pub open spec fn spec_verify(t: Seq<Tile>) -> VerifyOutcome {
    let idx = equals_indices(t);
    if idx.len() == 0 {
        if forall|i: int| 0 <= i < t.len() ==> #[trigger] t[i] is Digit {
            if t[0] == Tile::Digit(Digit::D0) {
                VerifyOutcome::Error(InvalidEquation::LeadingZero)
            } else {
                VerifyOutcome::Valid
            }
        } else {
            VerifyOutcome::Error(InvalidEquation::OperatorsWithoutEqualsSign)
        }
    } else if idx.len() == 1 {
        let p = idx[0];
        match spec_eval_expression(t.take(p)) {
            EvalOutcome::Panics => VerifyOutcome::Panics,
            EvalOutcome::Error(e) => VerifyOutcome::Error(e),
            EvalOutcome::Value(l) => match spec_eval_expression(t.skip(p + 1)) {
                EvalOutcome::Panics => VerifyOutcome::Panics,
                EvalOutcome::Error(e) => VerifyOutcome::Error(e),
                EvalOutcome::Value(r) => if l.0 * r.1 == r.0 * l.1 {
                    VerifyOutcome::Valid
                } else {
                    VerifyOutcome::Error(InvalidEquation::SidesNotEqual(rational_of(l), rational_of(r)))
                },
            },
        }
    } else {
        VerifyOutcome::Error(InvalidEquation::MoreThanOneEqualsSign)
    }
}

/// An equation with exactly one equals sign, whose two sides both evaluate,
/// is valid exactly when the two sides are the same rational number;
/// otherwise the error names the two values.
pub proof fn lemma_verify_compares_values(t: Seq<Tile>, p: int, l: (i64, i64), r: (i64, i64))
    requires
        0 <= p < t.len(),
        t[p] is EqualsSign,
        forall|i: int| 0 <= i < t.len() && i != p ==> !(#[trigger] t[i] is EqualsSign),
        spec_eval_expression(t.take(p)) == EvalOutcome::Value(l),
        spec_eval_expression(t.skip(p + 1)) == EvalOutcome::Value(r),
    ensures
        spec_verify(t) is Valid <==> same_value(pair_of(l), pair_of(r)),
        !same_value(pair_of(l), pair_of(r)) ==> spec_verify(t) == VerifyOutcome::Error(
            InvalidEquation::SidesNotEqual(rational_of(l), rational_of(r)),
        ),
{
    lemma_equals_indices(t);
    let idx = equals_indices(t);
    assert(idx.contains(p));
    assert(idx.len() == 1) by {
        if idx.len() > 1 {
            assert(idx[0] < idx[1]);
            assert(t[idx[0]] is EqualsSign && t[idx[1]] is EqualsSign);
        }
    }
    assert(idx[0] == p);
}

pub proof fn lemma_equals_indices(t: Seq<Tile>)
    ensures
        forall|k: int| 0 <= k < equals_indices(t).len() ==> 0 <= #[trigger] equals_indices(t)[k]
            < t.len() && t[equals_indices(t)[k]] is EqualsSign,
        forall|k1: int, k2: int|
            0 <= k1 < k2 < equals_indices(t).len() ==> equals_indices(t)[k1] < equals_indices(t)[k2],
        has_equals(t) <==> equals_indices(t).len() > 0,
        forall|i: int| 0 <= i < t.len() && t[i] is EqualsSign ==> equals_indices(t).contains(i),
    decreases t.len(),
{
    if t.len() > 0 {
        lemma_equals_indices(t.drop_last());
        let d = t.drop_last();
        let ed = equals_indices(d);
        let et = equals_indices(t);
        if t.last() is EqualsSign {
            assert(et == ed.push(t.len() - 1));
        } else {
            assert(et == ed);
        }
        assert forall|i: int| 0 <= i < t.len() && t[i] is EqualsSign implies et.contains(i) by {
            if i < t.len() - 1 {
                assert(d[i] == t[i]);
                assert(ed.contains(i));
                let k = choose|k: int| 0 <= k < ed.len() && ed[k] == i;
                assert(et[k] == i);
            } else {
                assert(et[et.len() - 1] == i);
            }
        }
        if has_equals(t) {
            let i = choose|i: int| 0 <= i < t.len() && t[i] is EqualsSign;
            assert(equals_indices(t).contains(i));
        }
        if equals_indices(t).len() > 0 {
            let i = equals_indices(t)[0];
            if t.last() is EqualsSign {
                assert(t[t.len() - 1] is EqualsSign);
            } else {
                assert(d[equals_indices(d)[0]] == t[equals_indices(d)[0]]);
            }
        }
    }
}

impl EquationToVerify {
    /// Whether the equation contains the equals sign.
    pub fn has_equals_sign(&self) -> (res: bool)
        ensures
            res == has_equals(self.tiles@),
    {
        let mut i: usize = 0;
        while i < self.tiles.len()
            invariant
                i <= self.tiles@.len(),
                forall|k: int| 0 <= k < i ==> !(self.tiles@[k] is EqualsSign),
            decreases self.tiles@.len() - i,
        {
            if let Tile::EqualsSign = self.tiles[i] {
                return true;
            }
            i += 1;
        }
        false
    }

    /// The equation is valid if it is a number or it is a proper equation
    /// with left and right hand side and both expressions are parseable.
    /// Returns `None` where checking the equation would panic.
    pub fn try_verify(&self) -> (res: Option<Result<(), InvalidEquation>>)
        requires
            self.tiles@.len() > 0,
        ensures
            match spec_verify(self.tiles@) {
                VerifyOutcome::Panics => res is None,
                VerifyOutcome::Valid => res == Some(Ok::<(), InvalidEquation>(())),
                VerifyOutcome::Error(e) => res == Some(Err::<(), InvalidEquation>(e)),
            },
    {
        let ghost t = self.tiles@;
        let mut equals_positions: Vec<usize> = Vec::new();
        let mut i: usize = 0;
        while i < self.tiles.len()
            invariant
                i <= t.len(),
                t == self.tiles@,
                equals_positions@.len() == equals_indices(t.take(i as int)).len(),
                forall|k: int|
                    0 <= k < equals_positions@.len() ==> equals_positions@[k] as int
                        == #[trigger] equals_indices(t.take(i as int))[k],
            decreases t.len() - i,
        {
            assert(t.take(i + 1).drop_last() =~= t.take(i as int));
            if let Tile::EqualsSign = self.tiles[i] {
                equals_positions.push(i);
            }
            i += 1;
        }
        assert(t.take(i as int) =~= t);
        if equals_positions.len() == 0 {
            let mut all_digits = true;
            let mut j: usize = 0;
            while j < self.tiles.len()
                invariant
                    j <= t.len(),
                    t == self.tiles@,
                    all_digits == forall|k: int| 0 <= k < j ==> #[trigger] t[k] is Digit,
                decreases t.len() - j,
            {
                let is_digit = match self.tiles[j] {
                    Tile::Digit(_) => true,
                    _ => false,
                };
                all_digits = all_digits && is_digit;
                j += 1;
            }
            if all_digits {
                match self.tiles[0] {
                    Tile::Digit(Digit::D0) => Some(Err(InvalidEquation::LeadingZero)),
                    _ => Some(Ok(())),
                }
            } else {
                Some(Err(InvalidEquation::OperatorsWithoutEqualsSign))
            }
        } else if equals_positions.len() == 1 {
            let equal_position = equals_positions[0];
            proof {
                lemma_equals_indices(t);
            }
            let s = self.tiles.as_slice();
            let left = &s[0..equal_position];
            let right = &s[equal_position + 1..s.len()];
            assert(left@ =~= t.take(equal_position as int));
            assert(right@ =~= t.skip(equal_position + 1));
            let lhs = match try_eval_expression(left) {
                None => return None,
                Some(Err(e)) => return Some(Err(e)),
                Some(Ok(v)) => v,
            };
            let rhs = match try_eval_expression(right) {
                None => return None,
                Some(Err(e)) => return Some(Err(e)),
                Some(Ok(v)) => v,
            };
            proof {
                lemma_rational_of(lhs@, lhs);
                lemma_rational_of(rhs@, rhs);
            }
            if lhs.value_eq(&rhs) {
                Some(Ok(()))
            } else {
                Some(Err(InvalidEquation::SidesNotEqual(lhs, rhs)))
            }
        } else {
            Some(Err(InvalidEquation::MoreThanOneEqualsSign))
        }
    }

    /// Whether checking the equation would panic.
    pub fn verify_panics(&self) -> (res: bool)
        requires
            self.tiles@.len() > 0,
        ensures
            res == (spec_verify(self.tiles@) is Panics),
    {
        self.try_verify().is_none()
    }

    /// Checks the equation (see `spec_verify`). The precondition leaves out
    /// the equations on which the check panics.
    pub fn verify(&self) -> (res: Result<(), InvalidEquation>)
        requires
            self.tiles@.len() > 0,
            !(spec_verify(self.tiles@) is Panics),
        ensures
            match spec_verify(self.tiles@) {
                VerifyOutcome::Valid => res == Ok::<(), InvalidEquation>(()),
                VerifyOutcome::Error(e) => res == Err::<(), InvalidEquation>(e),
                VerifyOutcome::Panics => false,
            },
    {
        match self.try_verify() {
            Some(r) => r,
            None => Ok(()),
        }
    }

    /// The board positions of the tiles, in order.
    pub fn tile_positions(&self) -> (res: Vec<(usize, usize)>)
        requires
            equation_on_board(self@),
        ensures
            res@.len() == self.tiles@.len(),
            forall|i: int|
                0 <= i < res@.len() ==> (#[trigger] res@[i]).0 as int == position_in(self@, i).0
                    && res@[i].1 as int == position_in(self@, i).1,
    {
        let (r, c) = self.initial_position;
        let mut res: Vec<(usize, usize)> = Vec::new();
        let mut d: usize = 0;
        while d < self.tiles.len()
            invariant
                equation_on_board(self@),
                (r, c) == self.initial_position,
                d <= self.tiles@.len(),
                res@.len() == d,
                forall|i: int|
                    0 <= i < res@.len() ==> (#[trigger] res@[i]).0 as int == position_in(self@, i).0
                        && res@[i].1 as int == position_in(self@, i).1,
            decreases self.tiles@.len() - d,
        {
            match self.direction {
                EquationDirection::Horizontal => res.push((r, c + d)),
                EquationDirection::Vertical => res.push((r + d, c)),
            }
            d += 1;
        }
        res
    }
}

/// The game board: the kind of every square and the tiles lying on it.
pub struct Board {
    pub board: Vec<Vec<BoardField>>,
    pub letters: Vec<Vec<Option<TileOnBoard>>>,
}

/// Whether position `(x, y)` is one of `ps`.
pub open spec fn positions_contain(ps: Seq<(usize, usize)>, x: int, y: int) -> bool {
    exists|i: int| 0 <= i < ps.len() && ps[i].0 == x && ps[i].1 == y
}

/// The kind of square `(x, y)` on a new board (an equation bonus wins over a
/// symbol bonus, a triple over a double).
pub open spec fn initial_field(x: int, y: int) -> BoardField {
    if positions_contain(TRIPLE_EQUATION_POSITIONS@, x, y) {
        BoardField::TripleEquation
    } else if positions_contain(DOUBLE_EQUATION_POSITIONS@, x, y) {
        BoardField::DoubleEquation
    } else if positions_contain(TRIPLE_SYMBOL_POSITIONS@, x, y) {
        BoardField::TripleSymbol
    } else if positions_contain(DOUBLE_SYMBOL_POSITIONS@, x, y) {
        BoardField::DoubleSymbol
    } else {
        BoardField::Standard
    }
}

/// Positions on the board.
pub open spec fn in_board(x: int, y: int) -> bool {
    0 <= x < 15 && 0 <= y < 15
}

/// The central square, which the first equation must cover.
pub open spec fn center() -> (int, int) {
    (7, 7)
}

/// Squares that share a side.
pub open spec fn adjacent(p: (int, int), q: (int, int)) -> bool {
    ||| p.0 == q.0 && (p.1 == q.1 + 1 || q.1 == p.1 + 1)
    ||| p.1 == q.1 && (p.0 == q.0 + 1 || q.0 == p.0 + 1)
}

/// The square with the given row-major index.
pub open spec fn nth_position(i: int) -> (int, int) {
    (i / 15, i % 15)
}

/// A temporary tile is taken away; anything else stays.
pub open spec fn without_temporary(c: Option<TileOnBoard>) -> Option<TileOnBoard> {
    match c {
        Some(t) => if t.status == TileStatus::Temporary {
            None
        } else {
            c
        },
        None => None,
    }
}

/// A tile that is permanent stays; a temporary one becomes permanent.
pub open spec fn made_permanent(c: Option<TileOnBoard>) -> Option<TileOnBoard> {
    match c {
        Some(t) => Some(TileOnBoard { content: t.content, status: TileStatus::Permanent }),
        None => None,
    }
}

/// The smallest element of a nonempty sequence.
pub open spec fn seq_min(s: Seq<int>) -> int
    decreases s.len(),
{
    if s.len() <= 1 {
        s[0]
    } else {
        let m = seq_min(s.drop_last());
        if s.last() < m {
            s.last()
        } else {
            m
        }
    }
}

/// The largest element of a nonempty sequence.
pub open spec fn seq_max(s: Seq<int>) -> int
    decreases s.len(),
{
    if s.len() <= 1 {
        s[0]
    } else {
        let m = seq_max(s.drop_last());
        if s.last() > m {
            s.last()
        } else {
            m
        }
    }
}

/// The rows of the given positions.
pub open spec fn rows_of(ps: Seq<(usize, usize)>) -> Seq<int> {
    Seq::new(ps.len(), |i: int| ps[i].0 as int)
}

/// The columns of the given positions.
pub open spec fn cols_of(ps: Seq<(usize, usize)>) -> Seq<int> {
    Seq::new(ps.len(), |i: int| ps[i].1 as int)
}

proof fn lemma_seq_min_max_bounds(s: Seq<int>, lo: int, hi: int)
    requires
        s.len() > 0,
        forall|i: int| 0 <= i < s.len() ==> lo <= #[trigger] s[i] < hi,
    ensures
        lo <= seq_min(s) < hi,
        lo <= seq_max(s) < hi,
    decreases s.len(),
{
    if s.len() > 1 {
        lemma_seq_min_max_bounds(s.drop_last(), lo, hi);
    }
}

/// Why a move on the board is not accepted.
pub enum InvalidBoard {
    NoNewTilesOnBoard,
    FirstWordMustBeOnCenter,
    NotAllTilesInOneLine,
    TilesAreNotInOneEquation,
    TilesAreNotConnected,
    InvalidEquation(EquationToVerify, InvalidEquation),
}

/// The mathematical content of an `InvalidBoard`.
pub enum InvalidBoardView {
    NoNewTilesOnBoard,
    FirstWordMustBeOnCenter,
    NotAllTilesInOneLine,
    TilesAreNotInOneEquation,
    TilesAreNotConnected,
    InvalidEquation(EquationView, InvalidEquation),
}

impl View for InvalidBoard {
    type V = InvalidBoardView;

    open spec fn view(&self) -> InvalidBoardView {
        match self {
            InvalidBoard::NoNewTilesOnBoard => InvalidBoardView::NoNewTilesOnBoard,
            InvalidBoard::FirstWordMustBeOnCenter => InvalidBoardView::FirstWordMustBeOnCenter,
            InvalidBoard::NotAllTilesInOneLine => InvalidBoardView::NotAllTilesInOneLine,
            InvalidBoard::TilesAreNotInOneEquation => InvalidBoardView::TilesAreNotInOneEquation,
            InvalidBoard::TilesAreNotConnected => InvalidBoardView::TilesAreNotConnected,
            InvalidBoard::InvalidEquation(eq, e) => InvalidBoardView::InvalidEquation(eq@, *e),
        }
    }
}

/// The outcome of checking a move.
pub enum MoveOutcome {
    Scored(int),
    Invalid(InvalidBoardView),
    Panics,
}

impl Board {
    /// Fifteen rows of fifteen squares each.
    pub open spec fn wf(&self) -> bool {
        &&& self.board@.len() == 15
        &&& self.letters@.len() == 15
        &&& forall|x: int| 0 <= x < 15 ==> (#[trigger] self.board@[x])@.len() == 15
        &&& forall|x: int| 0 <= x < 15 ==> (#[trigger] self.letters@[x])@.len() == 15
    }

    /// The board is `old` with square `(x, y)` set to `v`.
    pub open spec fn is_update_of(&self, old: Board, x: int, y: int, v: Option<TileOnBoard>) -> bool {
        &&& self.wf()
        &&& self.board == old.board
        &&& forall|a: int, b: int| in_board(a, b) ==> #[trigger] self.cell(a, b) == if a == x && b == y {
            v
        } else {
            old.cell(a, b)
        }
    }

    /// The contents of the temporary tiles among the first `n` squares, in
    /// row-major order.
    pub open spec fn temp_contents_upto(&self, n: int) -> Seq<Tile>
        decreases n,
    {
        if n <= 0 {
            Seq::empty()
        } else {
            let prev = self.temp_contents_upto(n - 1);
            let p = nth_position(n - 1);
            if self.temporary(p.0, p.1) {
                prev.push(self.cell(p.0, p.1).unwrap().content)
            } else {
                prev
            }
        }
    }

    /// The contents of the tiles of the move being made, in row-major order.
    pub open spec fn temp_contents(&self) -> Seq<Tile> {
        self.temp_contents_upto(225)
    }

    /// What lies on square `(x, y)`.
    pub open spec fn cell(&self, x: int, y: int) -> Option<TileOnBoard> {
        self.letters@[x]@[y]
    }

    /// The kind of square `(x, y)`.
    pub open spec fn field(&self, x: int, y: int) -> BoardField {
        self.board@[x]@[y]
    }

    pub open spec fn occupied(&self, x: int, y: int) -> bool {
        self.cell(x, y) is Some
    }

    /// Square `(x, y)` holds a tile of the move being made.
    pub open spec fn temporary(&self, x: int, y: int) -> bool {
        self.cell(x, y) matches Some(t) && t.status == TileStatus::Temporary
    }

    /// The temporary tiles among the first `n` squares in row-major order.
    pub open spec fn new_positions_upto(&self, n: int) -> Seq<(usize, usize)>
        decreases n,
    {
        if n <= 0 {
            Seq::empty()
        } else {
            let prev = self.new_positions_upto(n - 1);
            let p = nth_position(n - 1);
            if self.temporary(p.0, p.1) {
                prev.push((p.0 as usize, p.1 as usize))
            } else {
                prev
            }
        }
    }

    /// The positions of the tiles of the move being made, in row-major order.
    pub open spec fn new_positions(&self) -> Seq<(usize, usize)> {
        self.new_positions_upto(225)
    }

    /// A chain of tiles from the center, each next to the one before.
    pub open spec fn is_chain(&self, path: Seq<(int, int)>) -> bool {
        &&& path.len() > 0
        &&& path[0] == center()
        &&& forall|i: int|
            0 <= i < path.len() ==> in_board((#[trigger] path[i]).0, path[i].1) && self.occupied(
                path[i].0,
                path[i].1,
            )
        &&& forall|i: int| 0 <= i < path.len() - 1 ==> adjacent(#[trigger] path[i], path[i + 1])
    }

    /// Square `p` is linked to the center by a chain of tiles.
    pub open spec fn linked_to_center(&self, p: (int, int)) -> bool {
        exists|path: Seq<(int, int)>| #[trigger] self.is_chain(path) && path.last() == p
    }

    /// Every tile on the board is linked to the center.
    pub open spec fn all_linked(&self) -> bool {
        forall|x: int, y: int|
            in_board(x, y) && self.occupied(x, y) ==> #[trigger] self.linked_to_center((x, y))
    }

    /// Where a run of tiles through `(x, y)` in direction `dir` starts.
    pub open spec fn run_start(&self, x: int, y: int, dir: EquationDirection) -> int
        decreases (match dir {
            EquationDirection::Horizontal => y,
            EquationDirection::Vertical => x,
        }),
    {
        match dir {
            EquationDirection::Horizontal => if y > 0 && self.occupied(x, y - 1) {
                self.run_start(x, y - 1, dir)
            } else {
                y
            },
            EquationDirection::Vertical => if x > 0 && self.occupied(x - 1, y) {
                self.run_start(x - 1, y, dir)
            } else {
                x
            },
        }
    }

    /// Where a run of tiles through `(x, y)` in direction `dir` ends.
    pub open spec fn run_end(&self, x: int, y: int, dir: EquationDirection) -> int
        decreases (match dir {
            EquationDirection::Horizontal => 14 - y,
            EquationDirection::Vertical => 14 - x,
        }),
    {
        match dir {
            EquationDirection::Horizontal => if 0 <= y < 14 && self.occupied(x, y + 1) {
                self.run_end(x, y + 1, dir)
            } else {
                y
            },
            EquationDirection::Vertical => if 0 <= x < 14 && self.occupied(x + 1, y) {
                self.run_end(x + 1, y, dir)
            } else {
                x
            },
        }
    }

    /// The equation through `(x, y)` in direction `dir`: the maximal run of
    /// tiles containing that square, if the square holds a tile and the run
    /// has more than one tile.
    pub open spec fn spec_construct_equation(&self, x: int, y: int, dir: EquationDirection) -> Option<EquationView> {
        if !self.occupied(x, y) {
            None
        } else {
            let s = self.run_start(x, y, dir);
            let e = self.run_end(x, y, dir);
            let here = match dir {
                EquationDirection::Horizontal => y,
                EquationDirection::Vertical => x,
            };
            if s == here && e == here {
                None
            } else {
                Some(
                    EquationView {
                        initial_position: match dir {
                            EquationDirection::Horizontal => (x as usize, s as usize),
                            EquationDirection::Vertical => (s as usize, y as usize),
                        },
                        direction: dir,
                        tiles: self.run_tiles(x, y, dir, s, e),
                    },
                )
            }
        }
    }

    /// The equations across the first `n` new tiles, perpendicular to the main one.
    pub open spec fn cross_equations(&self, ps: Seq<(usize, usize)>, dir: EquationDirection, n: int) -> Seq<EquationView>
        decreases n,
    {
        if n <= 0 {
            Seq::empty()
        } else {
            let prev = self.cross_equations(ps, dir, n - 1);
            match self.spec_construct_equation(ps[n - 1].0 as int, ps[n - 1].1 as int, dir) {
                Some(eq) => prev.push(eq),
                None => prev,
            }
        }
    }

    /// All equations made by the move: the main one, along the line of the
    /// new tiles, then one across each new tile, in order.
    pub open spec fn move_equations(&self, ps: Seq<(usize, usize)>, dir: EquationDirection) -> Seq<EquationView> {
        let main = match self.spec_construct_equation(ps[0].0 as int, ps[0].1 as int, dir) {
            Some(eq) => seq![eq],
            None => Seq::empty(),
        };
        main + self.cross_equations(ps, dir.spec_opposite(), ps.len() as int)
    }

    /// The product of the equation multipliers under the new tiles among the
    /// first `k` tiles of `eq`.
    pub open spec fn equation_multiplier_upto(&self, eq: EquationView, k: int) -> int
        decreases k,
    {
        if k <= 0 {
            1
        } else {
            let p = position_in(eq, k - 1);
            self.equation_multiplier_upto(eq, k - 1) * (if self.temporary(p.0, p.1) {
                self.field(p.0, p.1).spec_equation_multiplier()
            } else {
                1
            })
        }
    }

    /// The points of the first `k` tiles of `eq`: new tiles count with the
    /// symbol multiplier of their square.
    pub open spec fn equation_base_upto(&self, eq: EquationView, k: int) -> int
        decreases k,
    {
        if k <= 0 {
            0
        } else {
            let p = position_in(eq, k - 1);
            let t = self.cell(p.0, p.1).unwrap();
            self.equation_base_upto(eq, k - 1) + (if t.status == TileStatus::Temporary {
                tile_score(t.content) * self.field(p.0, p.1).spec_symbol_multiplier()
            } else {
                tile_score(t.content)
            })
        }
    }

    /// The points of an equation: numbers without equals sign give nothing.
    pub open spec fn equation_points(&self, eq: EquationView) -> int {
        if has_equals(eq.tiles) {
            self.equation_multiplier_upto(eq, eq.tiles.len() as int) * self.equation_base_upto(
                eq,
                eq.tiles.len() as int,
            )
        } else {
            0
        }
    }

    /// Checks and grades the first `n` equations in order: the first invalid
    /// one is reported.
    pub open spec fn grade_upto(&self, eqs: Seq<EquationView>, n: int) -> MoveOutcome
        decreases n,
    {
        if n <= 0 {
            MoveOutcome::Scored(0)
        } else {
            match self.grade_upto(eqs, n - 1) {
                MoveOutcome::Scored(total) => match spec_verify(eqs[n - 1].tiles) {
                    VerifyOutcome::Panics => MoveOutcome::Panics,
                    VerifyOutcome::Error(e) => MoveOutcome::Invalid(
                        InvalidBoardView::InvalidEquation(eqs[n - 1], e),
                    ),
                    VerifyOutcome::Valid => MoveOutcome::Scored(total + self.equation_points(eqs[n - 1])),
                },
                other => other,
            }
        }
    }

    /// How many of the new tiles are not the equals sign.
    pub open spec fn count_non_equals(&self, ps: Seq<(usize, usize)>, n: int) -> int
        decreases n,
    {
        if n <= 0 {
            0
        } else {
            self.count_non_equals(ps, n - 1) + (if self.cell(ps[n - 1].0 as int, ps[n - 1].1 as int).unwrap().content is EqualsSign {
                0int
            } else {
                1int
            })
        }
    }

    /// The new tiles are in one row (`Horizontal`) or one column
    /// (`Vertical`) with no gap between the first and the last of them.
    pub open spec fn line_of(&self, ps: Seq<(usize, usize)>) -> Result<EquationDirection, InvalidBoardView> {
        let r0 = ps[0].0 as int;
        let c0 = ps[0].1 as int;
        let rows = rows_of(ps);
        let cols = cols_of(ps);
        if forall|i: int| 0 <= i < ps.len() ==> #[trigger] ps[i].0 == r0 {
            if forall|c: int| seq_min(cols) <= c < seq_max(cols) ==> #[trigger] self.occupied(r0, c) {
                Ok(EquationDirection::Horizontal)
            } else {
                Err(InvalidBoardView::TilesAreNotInOneEquation)
            }
        } else if forall|i: int| 0 <= i < ps.len() ==> #[trigger] ps[i].1 == c0 {
            if forall|r: int| seq_min(rows) <= r < seq_max(rows) ==> #[trigger] self.occupied(r, c0) {
                Ok(EquationDirection::Vertical)
            } else {
                Err(InvalidBoardView::TilesAreNotInOneEquation)
            }
        } else {
            Err(InvalidBoardView::NotAllTilesInOneLine)
        }
    }

    /// What checking the move gives, in the order of the checks: the center
    /// must be covered, some tile must be new, the new tiles must lie in one
    /// gapless line, every tile must be linked to the center, and every
    /// equation through a new tile must be valid. The score is the sum of the
    /// points of the equations, plus a bonus when the move uses nine tiles
    /// other than the equals sign.
    pub open spec fn spec_check_move(&self) -> MoveOutcome {
        if !self.occupied(7, 7) {
            MoveOutcome::Invalid(InvalidBoardView::FirstWordMustBeOnCenter)
        } else {
            let ps = self.new_positions();
            if ps.len() == 0 {
                MoveOutcome::Invalid(InvalidBoardView::NoNewTilesOnBoard)
            } else {
                match self.line_of(ps) {
                    Err(e) => MoveOutcome::Invalid(e),
                    Ok(dir) => if !self.all_linked() {
                        MoveOutcome::Invalid(InvalidBoardView::TilesAreNotConnected)
                    } else {
                        let eqs = self.move_equations(ps, dir);
                        match self.grade_upto(eqs, eqs.len() as int) {
                            MoveOutcome::Scored(total) => MoveOutcome::Scored(
                                total + if self.count_non_equals(ps, ps.len() as int) == 9 {
                                    50int
                                } else {
                                    0int
                                },
                            ),
                            other => other,
                        }
                    },
                }
            }
        }
    }
}

/// Marks every position of `ps` that lies on the board with `f`.
fn mark_positions(board: &mut Vec<Vec<BoardField>>, ps: &[(usize, usize)], f: BoardField)
    requires
        old(board)@.len() == 15,
        forall|x: int| 0 <= x < 15 ==> (#[trigger] old(board)@[x])@.len() == 15,
    ensures
        final(board)@.len() == 15,
        forall|x: int| 0 <= x < 15 ==> (#[trigger] final(board)@[x])@.len() == 15,
        forall|x: int, y: int|
            in_board(x, y) ==> (#[trigger] final(board)@[x]@[y]) == if positions_contain(ps@, x, y) {
                f
            } else {
                old(board)@[x]@[y]
            },
{
    let ghost b0 = old(board)@;
    let mut k: usize = 0;
    while k < ps.len()
        invariant
            k <= ps@.len(),
            board@.len() == 15,
            forall|x: int| 0 <= x < 15 ==> (#[trigger] board@[x])@.len() == 15,
            forall|x: int, y: int|
                in_board(x, y) ==> (#[trigger] board@[x]@[y]) == if positions_contain(
                    ps@.take(k as int),
                    x,
                    y,
                ) {
                    f
                } else {
                    b0[x]@[y]
                },
        decreases ps@.len() - k,
    {
        let (x, y) = ps[k];
        let ghost prev = board@;
        if x < BOARD_SIZE && y < BOARD_SIZE {
            board[x][y] = f;
        }
        proof {
            let t = ps@.take(k + 1);
            assert(t[k as int] == (x, y));
            assert forall|a: int, b: int| in_board(a, b) implies (#[trigger] board@[a]@[b]) == if positions_contain(t, a, b) {
                f
            } else {
                b0[a]@[b]
            } by {
                if a == x && b == y {
                    assert(positions_contain(t, a, b));
                } else {
                    assert(board@[a]@[b] == prev[a]@[b]);
                }
                if positions_contain(ps@.take(k as int), a, b) {
                    let i = choose|i: int| 0 <= i < k && ps@.take(k as int)[i].0 == a && ps@.take(k as int)[i].1 == b;
                    assert(t[i] == ps@.take(k as int)[i]);
                }
                if positions_contain(t, a, b) {
                    let i = choose|i: int| 0 <= i < t.len() && t[i].0 == a && t[i].1 == b;
                    if i < k {
                        assert(ps@.take(k as int)[i] == t[i]);
                    }
                }
            }
        }
        k += 1;
    }
    assert(ps@.take(k as int) =~= ps@);
}

impl Board {
    /// A new board with the standard layout of bonus squares and no tiles.
    pub fn new() -> (b: Board)
        ensures
            b.wf(),
            forall|x: int, y: int| in_board(x, y) ==> #[trigger] b.cell(x, y) is None,
            forall|x: int, y: int| in_board(x, y) ==> #[trigger] b.field(x, y) == initial_field(x, y),
    {
        let mut board: Vec<Vec<BoardField>> = Vec::new();
        let mut letters: Vec<Vec<Option<TileOnBoard>>> = Vec::new();
        let mut x: usize = 0;
        while x < BOARD_SIZE
            invariant
                x <= 15,
                board@.len() == x,
                letters@.len() == x,
                forall|i: int| 0 <= i < x ==> (#[trigger] board@[i])@.len() == 15,
                forall|i: int| 0 <= i < x ==> (#[trigger] letters@[i])@.len() == 15,
                forall|i: int, j: int| 0 <= i < x && 0 <= j < 15 ==> #[trigger] board@[i]@[j] == BoardField::Standard,
                forall|i: int, j: int| 0 <= i < x && 0 <= j < 15 ==> #[trigger] letters@[i]@[j] is None,
            decreases 15 - x,
        {
            let mut row: Vec<BoardField> = Vec::new();
            let mut lrow: Vec<Option<TileOnBoard>> = Vec::new();
            let mut y: usize = 0;
            while y < BOARD_SIZE
                invariant
                    y <= 15,
                    row@.len() == y,
                    lrow@.len() == y,
                    forall|j: int| 0 <= j < y ==> #[trigger] row@[j] == BoardField::Standard,
                    forall|j: int| 0 <= j < y ==> #[trigger] lrow@[j] is None,
                decreases 15 - y,
            {
                row.push(BoardField::Standard);
                lrow.push(None);
                y += 1;
            }
            board.push(row);
            letters.push(lrow);
            x += 1;
        }
        mark_positions(&mut board, &DOUBLE_SYMBOL_POSITIONS, BoardField::DoubleSymbol);
        mark_positions(&mut board, &TRIPLE_SYMBOL_POSITIONS, BoardField::TripleSymbol);
        mark_positions(&mut board, &DOUBLE_EQUATION_POSITIONS, BoardField::DoubleEquation);
        mark_positions(&mut board, &TRIPLE_EQUATION_POSITIONS, BoardField::TripleEquation);
        Board { board, letters }
    }
}

/// The squares next to `(x, y)` that lie on the board, in the order left,
/// right, above, below.
pub open spec fn neighbour_list(x: usize, y: usize) -> Seq<(usize, usize)> {
    let s0 = Seq::<(usize, usize)>::empty();
    let s1 = if x > 0 { s0.push(((x - 1) as usize, y)) } else { s0 };
    let s2 = if x < 14 { s1.push(((x + 1) as usize, y)) } else { s1 };
    let s3 = if y > 0 { s2.push((x, (y - 1) as usize)) } else { s2 };
    if y < 14 { s3.push((x, (y + 1) as usize)) } else { s3 }
}

/// The squares next to `(x, y)` that lie on the board.
fn neighbours(x: usize, y: usize) -> (v: Vec<(usize, usize)>)
    requires
        x < 15,
        y < 15,
    ensures
        v@ == neighbour_list(x, y),
        forall|i: int|
            0 <= i < v@.len() ==> in_board((#[trigger] v@[i]).0 as int, v@[i].1 as int) && adjacent(
                (x as int, y as int),
                (v@[i].0 as int, v@[i].1 as int),
            ),
        forall|a: int, b: int|
            in_board(a, b) && adjacent((x as int, y as int), (a, b)) ==> exists|i: int|
                0 <= i < v@.len() && (#[trigger] v@[i]).0 == a && v@[i].1 == b,
{
    let mut vec: Vec<(usize, usize)> = Vec::new();
    if x > 0 {
        vec.push((x - 1, y));
    }
    if x < BOARD_SIZE - 1 {
        vec.push((x + 1, y));
    }
    if y > 0 {
        vec.push((x, y - 1));
    }
    if y < BOARD_SIZE - 1 {
        vec.push((x, y + 1));
    }
    assert(vec@ =~= neighbour_list(x, y));
    proof {
        assert forall|a: int, b: int| in_board(a, b) && adjacent((x as int, y as int), (a, b)) implies exists|i: int|
            0 <= i < vec@.len() && (#[trigger] vec@[i]).0 == a && vec@[i].1 == b by {
            let k1: int = if x > 0 { 1 } else { 0 };
            let k2: int = k1 + if x < 14 { 1int } else { 0int };
            let k3: int = k2 + if y > 0 { 1int } else { 0int };
            if a == x - 1 && b == y {
                assert(vec@[0].0 == a && vec@[0].1 == b);
            } else if a == x + 1 && b == y {
                assert(vec@[k1].0 == a && vec@[k1].1 == b);
            } else if a == x && b == y - 1 {
                assert(vec@[k2].0 == a && vec@[k2].1 == b);
            } else {
                assert(vec@[k3].0 == a && vec@[k3].1 == b);
            }
        }
    }
    vec
}

/// How many entries of `s` are `true`.
pub open spec fn count_true(s: Seq<bool>) -> nat
    decreases s.len(),
{
    if s.len() == 0 {
        0
    } else {
        count_true(s.drop_last()) + if s.last() {
            1nat
        } else {
            0nat
        }
    }
}

proof fn lemma_count_true_update(s: Seq<bool>, i: int)
    requires
        0 <= i < s.len(),
        !s[i],
    ensures
        count_true(s.update(i, true)) == count_true(s) + 1,
    decreases s.len(),
{
    let u = s.update(i, true);
    if i == s.len() - 1 {
        assert(u.drop_last() =~= s.drop_last());
    } else {
        assert(u.drop_last() =~= s.drop_last().update(i, true));
        lemma_count_true_update(s.drop_last(), i);
    }
}

proof fn lemma_count_true_all_false(s: Seq<bool>)
    requires
        forall|j: int| 0 <= j < s.len() ==> !#[trigger] s[j],
    ensures
        count_true(s) == 0,
    decreases s.len(),
{
    if s.len() > 0 {
        lemma_count_true_all_false(s.drop_last());
    }
}

proof fn lemma_count_true_le(s: Seq<bool>)
    ensures
        count_true(s) <= s.len(),
    decreases s.len(),
{
    if s.len() > 0 {
        lemma_count_true_le(s.drop_last());
    }
}

/// Square `(x, y)` is marked in the flat (row-major) table `v`.
pub open spec fn is_marked(v: Seq<bool>, x: int, y: int) -> bool {
    v[x * 15 + y]
}

/// Every square next to `(x, y)` on the board is marked.
pub open spec fn neighbours_marked(v: Seq<bool>, x: int, y: int) -> bool {
    forall|a: int, b: int| in_board(a, b) && adjacent((x, y), (a, b)) ==> #[trigger] is_marked(v, a, b)
}

/// Position `(x, y)` is on the stack.
pub open spec fn on_stack(st: Seq<(usize, usize)>, x: int, y: int) -> bool {
    exists|i: int| 0 <= i < st.len() && st[i].0 == x && st[i].1 == y
}

impl Board {
    proof fn lemma_extend_chain(&self, path: Seq<(int, int)>, q: (int, int))
        requires
            self.is_chain(path),
            adjacent(path.last(), q),
            in_board(q.0, q.1),
            self.occupied(q.0, q.1),
        ensures
            self.is_chain(path.push(q)),
            self.linked_to_center(q),
    {
        let p2 = path.push(q);
        assert forall|i: int| 0 <= i < p2.len() - 1 implies adjacent(#[trigger] p2[i], p2[i + 1]) by {
            if i < path.len() - 1 {
                assert(p2[i] == path[i] && p2[i + 1] == path[i + 1]);
            }
        }
        assert(p2.last() == q);
        assert(self.is_chain(p2) && p2.last() == q);
    }

    /// Every tile linked to the center is marked, when the center is marked
    /// and every marked tile has its neighbours marked.
    proof fn lemma_linked_marked(&self, v: Seq<bool>, path: Seq<(int, int)>, i: int)
        requires
            v.len() == 225,
            self.is_chain(path),
            0 <= i < path.len(),
            is_marked(v, 7, 7),
            forall|x: int, y: int|
                in_board(x, y) && #[trigger] is_marked(v, x, y) && self.occupied(x, y) ==> neighbours_marked(v, x, y),
        ensures
            is_marked(v, path[i].0, path[i].1),
        decreases i,
    {
        if i > 0 {
            self.lemma_linked_marked(v, path, i - 1);
            let p = path[i - 1];
            assert(adjacent(path[i - 1], path[i]));
            assert(neighbours_marked(v, p.0, p.1));
            assert(in_board(path[i].0, path[i].1));
        }
    }

    /// The state of the search: `v` marks the squares seen, `st` holds the
    /// squares still to expand, and `open` is the square being expanded.
    /// Marked tiles are linked to the center, and a marked tile that is
    /// neither to be expanded nor being expanded has its neighbours marked.
    #[verifier::opaque]
    spec fn search_state(&self, v: Seq<bool>, st: Seq<(usize, usize)>, open: Option<(int, int)>) -> bool {
        &&& v.len() == 225
        &&& is_marked(v, 7, 7)
        &&& forall|k: int|
            0 <= k < st.len() ==> in_board((#[trigger] st[k]).0 as int, st[k].1 as int) && is_marked(
                v,
                st[k].0 as int,
                st[k].1 as int,
            )
        &&& forall|k1: int, k2: int| 0 <= k1 < k2 < st.len() ==> st[k1] != st[k2]
        &&& forall|x: int, y: int|
            in_board(x, y) && #[trigger] is_marked(v, x, y) && self.occupied(x, y) ==> self.linked_to_center((x, y))
        &&& forall|x: int, y: int|
            in_board(x, y) && #[trigger] is_marked(v, x, y) && self.occupied(x, y) && !on_stack(st, x, y)
                && open != Some((x, y)) ==> neighbours_marked(v, x, y)
    }

    proof fn lemma_search_start(&self, v: Seq<bool>, st: Seq<(usize, usize)>)
        requires
            self.occupied(7, 7),
            v.len() == 225,
            forall|i: int| 0 <= i < 225 ==> (#[trigger] v[i] <==> i == 112),
            st == seq![(7usize, 7usize)],
        ensures
            self.search_state(v, st, None),
    {
        reveal(Board::search_state);
        assert(self.is_chain(seq![center()]));
        assert(seq![center()].last() == center());
        assert forall|a: int, b: int| in_board(a, b) && #[trigger] is_marked(v, a, b) implies a == 7 && b == 7 by {
            if !(a == 7 && b == 7) {
                assert(a * 15 + b != 112);
            }
        }
        assert(st[0] == (7usize, 7usize));
        assert(on_stack(st, 7, 7));
        assert forall|a: int, b: int| in_board(a, b) && #[trigger] is_marked(v, a, b) && self.occupied(a, b)
            implies self.linked_to_center((a, b)) by {
            assert(self.is_chain(seq![center()]) && seq![center()].last() == (a, b));
        }
    }

    proof fn lemma_search_pop(&self, v: Seq<bool>, st: Seq<(usize, usize)>)
        requires
            self.search_state(v, st, None),
            st.len() > 0,
        ensures
            self.search_state(v, st.drop_last(), Some((st.last().0 as int, st.last().1 as int))),
            !on_stack(st.drop_last(), st.last().0 as int, st.last().1 as int),
            in_board(st.last().0 as int, st.last().1 as int),
            is_marked(v, st.last().0 as int, st.last().1 as int),
    {
        reveal(Board::search_state);
        let s2 = st.drop_last();
        let (x, y) = (st.last().0 as int, st.last().1 as int);
        assert(st[st.len() - 1] == st.last());
        if on_stack(s2, x, y) {
            let k = choose|k: int| 0 <= k < s2.len() && s2[k].0 == x && s2[k].1 == y;
            assert(st[k] == st[st.len() - 1]);
        }
        assert forall|a: int, b: int|
            in_board(a, b) && #[trigger] is_marked(v, a, b) && self.occupied(a, b) && !on_stack(s2, a, b)
                && Some((x, y)) != Some((a, b)) implies neighbours_marked(v, a, b) by {
            if on_stack(st, a, b) {
                let k = choose|k: int| 0 <= k < st.len() && st[k].0 == a && st[k].1 == b;
                if k < st.len() - 1 {
                    assert(s2[k] == st[k]);
                }
            }
        }
        assert forall|k: int| 0 <= k < s2.len() implies in_board((#[trigger] s2[k]).0 as int, s2[k].1 as int) && is_marked(
            v, s2[k].0 as int, s2[k].1 as int) by {
            assert(s2[k] == st[k]);
        }
    }

    proof fn lemma_search_mark(&self, v: Seq<bool>, st: Seq<(usize, usize)>, x: int, y: int, xx: usize, yy: usize)
        requires
            self.search_state(v, st, Some((x, y))),
            !on_stack(st, x, y),
            in_board(x, y),
            is_marked(v, x, y),
            self.occupied(x, y),
            in_board(xx as int, yy as int),
            adjacent((x, y), (xx as int, yy as int)),
            !is_marked(v, xx as int, yy as int),
        ensures
            self.search_state(v.update(xx * 15 + yy, true), st.push((xx, yy)), Some((x, y))),
            !on_stack(st.push((xx, yy)), x, y),
            is_marked(v.update(xx * 15 + yy, true), x, y),
            forall|i: int| 0 <= i < 225 && v[i] ==> #[trigger] v.update(xx * 15 + yy, true)[i],
            is_marked(v.update(xx * 15 + yy, true), xx as int, yy as int),
    {
        reveal(Board::search_state);
        let v1 = v.update(xx * 15 + yy, true);
        let s1 = st.push((xx, yy));
        assert forall|a: int, b: int| in_board(a, b) && is_marked(v, a, b) implies #[trigger] is_marked(v1, a, b) by {
            assert(0 <= a * 15 + b < 225);
        }
        assert(!on_stack(st, xx as int, yy as int)) by {
            if on_stack(st, xx as int, yy as int) {
                let k = choose|k: int| 0 <= k < st.len() && st[k].0 == xx && st[k].1 == yy;
                assert(is_marked(v, st[k].0 as int, st[k].1 as int));
            }
        }
        assert forall|a: int, b: int| in_board(a, b) && #[trigger] is_marked(v1, a, b) && self.occupied(a, b)
            implies self.linked_to_center((a, b)) by {
            if a == xx && b == yy {
                assert(self.linked_to_center((x, y)));
                let path = choose|path: Seq<(int, int)>| #[trigger] self.is_chain(path) && path.last() == (x, y);
                self.lemma_extend_chain(path, (a, b));
            } else {
                assert(a * 15 + b != xx * 15 + yy);
                assert(is_marked(v, a, b));
            }
        }
        assert forall|a: int, b: int|
            in_board(a, b) && #[trigger] is_marked(v1, a, b) && self.occupied(a, b) && !on_stack(s1, a, b)
                && Some((x, y)) != Some((a, b)) implies neighbours_marked(v1, a, b) by {
            assert(!(a == xx && b == yy)) by {
                if a == xx && b == yy {
                    assert(s1[st.len() as int] == (xx, yy));
                }
            }
            assert(a * 15 + b != xx * 15 + yy);
            assert(is_marked(v, a, b));
            if on_stack(st, a, b) {
                let k = choose|k: int| 0 <= k < st.len() && st[k].0 == a && st[k].1 == b;
                assert(s1[k] == st[k]);
            }
            assert(neighbours_marked(v, a, b));
            assert forall|c: int, d: int| in_board(c, d) && adjacent((a, b), (c, d)) implies #[trigger] is_marked(v1, c, d) by {
                assert(is_marked(v, c, d));
            }
        }
        assert forall|k: int| 0 <= k < s1.len() implies in_board((#[trigger] s1[k]).0 as int, s1[k].1 as int)
            && is_marked(v1, s1[k].0 as int, s1[k].1 as int) by {
            if k < st.len() {
                assert(s1[k] == st[k]);
            }
        }
        assert forall|k1: int, k2: int| 0 <= k1 < k2 < s1.len() implies s1[k1] != s1[k2] by {
            if k2 == st.len() {
                assert(s1[k1] == st[k1]);
                assert(is_marked(v, st[k1].0 as int, st[k1].1 as int));
            } else {
                assert(s1[k1] == st[k1] && s1[k2] == st[k2]);
            }
        }
        assert(!on_stack(s1, x, y)) by {
            if on_stack(s1, x, y) {
                let k = choose|k: int| 0 <= k < s1.len() && s1[k].0 == x && s1[k].1 == y;
                if k < st.len() {
                    assert(s1[k] == st[k]);
                }
            }
        }
    }

    proof fn lemma_search_close(&self, v: Seq<bool>, st: Seq<(usize, usize)>, x: int, y: int)
        requires
            self.search_state(v, st, Some((x, y))),
            self.occupied(x, y) ==> neighbours_marked(v, x, y),
        ensures
            self.search_state(v, st, None),
    {
        reveal(Board::search_state);
    }

    proof fn lemma_search_end(&self, v: Seq<bool>)
        requires
            self.search_state(v, Seq::empty(), None),
        ensures
            v.len() == 225,
            is_marked(v, 7, 7),
            forall|x: int, y: int|
                in_board(x, y) && #[trigger] is_marked(v, x, y) && self.occupied(x, y) ==> self.linked_to_center((x, y)),
            forall|x: int, y: int|
                in_board(x, y) && #[trigger] is_marked(v, x, y) && self.occupied(x, y) ==> neighbours_marked(v, x, y),
    {
        reveal(Board::search_state);
        assert forall|x: int, y: int|
            in_board(x, y) && #[trigger] is_marked(v, x, y) && self.occupied(x, y) implies neighbours_marked(v, x, y) by {
            assert(!on_stack(Seq::<(usize, usize)>::empty(), x, y));
        }
    }

    /// Whether every tile is linked to the center (a depth-first search from
    /// the center).
    fn tiles_connected(&self) -> (res: bool)
        requires
            self.wf(),
            self.occupied(7, 7),
        ensures
            res == self.all_linked(),
    {
        let mut visited: Vec<bool> = Vec::new();
        let mut i: usize = 0;
        while i < 225
            invariant
                i <= 225,
                visited@.len() == i,
                forall|j: int| 0 <= j < i ==> !#[trigger] visited@[j],
            decreases 225 - i,
        {
            visited.push(false);
            i += 1;
        }
        proof {
            lemma_count_true_all_false(visited@);
            lemma_count_true_update(visited@, 112int);
        }
        visited.set(7 * 15 + 7, true);
        let mut n_marked: usize = 1;
        let mut stack: Vec<(usize, usize)> = Vec::new();
        stack.push((7, 7));
        proof {
            assert(stack@ =~= seq![(7usize, 7usize)]);
            self.lemma_search_start(visited@, stack@);
        }
        loop
            invariant
                self.wf(),
                self.occupied(7, 7),
                visited@.len() == 225,
                n_marked == count_true(visited@),
                self.search_state(visited@, stack@, None),
            ensures
                self.search_state(visited@, Seq::empty(), None),
            decreases 2 * (225 - n_marked) + stack@.len(),
        {
            proof {
                lemma_count_true_le(visited@);
            }
            let ghost st0 = stack@;
            if stack.len() == 0 {
                assert(stack@ =~= Seq::<(usize, usize)>::empty());
                break;
            }
            proof {
                self.lemma_search_pop(visited@, stack@);
            }
            let (x, y) = stack.pop().unwrap();
            assert(stack@ =~= st0.drop_last());
            let nb = neighbours(x, y);
            let occupied = self.letters[x][y].is_some();
            let ghost v_start = visited@;
            let ghost len_start = stack@.len();
            let mut j: usize = 0;
            while j < nb.len()
                invariant
                    self.wf(),
                    x < 15,
                    y < 15,
                    occupied == self.occupied(x as int, y as int),
                    is_marked(visited@, x as int, y as int),
                    j <= nb@.len(),
                    forall|i: int|
                        0 <= i < nb@.len() ==> in_board((#[trigger] nb@[i]).0 as int, nb@[i].1 as int)
                            && adjacent((x as int, y as int), (nb@[i].0 as int, nb@[i].1 as int)),
                    visited@.len() == 225,
                    n_marked == count_true(visited@),
                    n_marked <= 225,
                    stack@.len() >= len_start,
                    2 * (225 - n_marked) + stack@.len() <= 2 * (225 - count_true(v_start)) + len_start,
                    self.search_state(visited@, stack@, Some((x as int, y as int))),
                    !on_stack(stack@, x as int, y as int),
                    occupied ==> forall|i: int| 0 <= i < j ==> #[trigger] is_marked(visited@, nb@[i].0 as int, nb@[i].1 as int),
                decreases nb@.len() - j,
            {
                let (xx, yy) = nb[j];
                let idx = xx * 15 + yy;
                if occupied && !visited[idx] {
                    let ghost v_before = visited@;
                    proof {
                        lemma_count_true_update(visited@, idx as int);
                        self.lemma_search_mark(visited@, stack@, x as int, y as int, xx, yy);
                    }
                    visited.set(idx, true);
                    n_marked += 1;
                    stack.push((xx, yy));
                    proof {
                        lemma_count_true_le(visited@);
                        assert forall|i: int| 0 <= i <= j implies #[trigger] is_marked(visited@, nb@[i].0 as int, nb@[i].1 as int) by {
                            if i < j {
                                assert(is_marked(v_before, nb@[i].0 as int, nb@[i].1 as int));
                                assert(0 <= nb@[i].0 * 15 + nb@[i].1 < 225);
                            }
                        }
                    }
                }
                j += 1;
            }
            proof {
                if occupied {
                    assert forall|a: int, b: int| in_board(a, b) && adjacent((x as int, y as int), (a, b)) implies #[trigger] is_marked(visited@, a, b) by {
                        let i = choose|i: int| 0 <= i < nb@.len() && (#[trigger] nb@[i]).0 == a && nb@[i].1 == b;
                        assert(is_marked(visited@, nb@[i].0 as int, nb@[i].1 as int));
                    }
                }
                self.lemma_search_close(visited@, stack@, x as int, y as int);
            }
        }
        proof {
            self.lemma_search_end(visited@);
        }
        let mut k: usize = 0;
        while k < 225
            invariant
                self.wf(),
                k <= 225,
                visited@.len() == 225,
                is_marked(visited@, 7, 7),
                forall|x: int, y: int|
                    in_board(x, y) && #[trigger] is_marked(visited@, x, y) && self.occupied(x, y)
                        ==> self.linked_to_center((x, y)),
                forall|x: int, y: int|
                    in_board(x, y) && #[trigger] is_marked(visited@, x, y) && self.occupied(x, y)
                        ==> neighbours_marked(visited@, x, y),
                forall|i: int| 0 <= i < k ==> {
                    let p = nth_position(i);
                    #[trigger] visited@[i] || !self.occupied(p.0, p.1)
                },
            decreases 225 - k,
        {
            let x = k / 15;
            let y = k % 15;
            if !visited[k] && self.letters[x][y].is_some() {
                proof {
                    assert(x * 15 + y == k);
                    if self.linked_to_center((x as int, y as int)) {
                        let path = choose|path: Seq<(int, int)>| #[trigger] self.is_chain(path) && path.last() == (x as int, y as int);
                        self.lemma_linked_marked(visited@, path, path.len() - 1);
                    }
                }
                return false;
            }
            k += 1;
        }
        proof {
            assert forall|x: int, y: int| in_board(x, y) && self.occupied(x, y) implies #[trigger] self.linked_to_center((x, y)) by {
                let i = x * 15 + y;
                assert(nth_position(i) == (x, y));
                assert(visited@[i]);
                assert(is_marked(visited@, x, y));
            }
        }
        true
    }
}

impl Board {
    /// The positions of the temporary tiles, in row-major order.
    fn new_tile_positions(&self) -> (res: Vec<(usize, usize)>)
        requires
            self.wf(),
        ensures
            res@ == self.new_positions(),
            forall|i: int| 0 <= i < res@.len() ==> in_board((#[trigger] res@[i]).0 as int, res@[i].1 as int)
                && self.temporary(res@[i].0 as int, res@[i].1 as int),
            res@.len() <= 225,
    {
        let mut res: Vec<(usize, usize)> = Vec::new();
        let mut x: usize = 0;
        while x < BOARD_SIZE
            invariant
                self.wf(),
                x <= 15,
                res@ == self.new_positions_upto(15 * x),
                res@.len() <= 15 * x,
                forall|i: int| 0 <= i < res@.len() ==> in_board((#[trigger] res@[i]).0 as int, res@[i].1 as int)
                    && self.temporary(res@[i].0 as int, res@[i].1 as int),
            decreases 15 - x,
        {
            let mut y: usize = 0;
            while y < BOARD_SIZE
                invariant
                    self.wf(),
                    x < 15,
                    y <= 15,
                    res@ == self.new_positions_upto(15 * x + y),
                    res@.len() <= 15 * x + y,
                    forall|i: int| 0 <= i < res@.len() ==> in_board((#[trigger] res@[i]).0 as int, res@[i].1 as int)
                        && self.temporary(res@[i].0 as int, res@[i].1 as int),
                decreases 15 - y,
            {
                assert((15 * x + y) / 15 == x && (15 * x + y) % 15 == y) by (nonlinear_arith)
                    requires y < 15;
                let is_new = match &self.letters[x][y] {
                    None => false,
                    Some(tile) => match tile.status() {
                        TileStatus::Permanent => false,
                        TileStatus::Temporary => true,
                    },
                };
                if is_new {
                    res.push((x, y));
                }
                y += 1;
            }
            x += 1;
        }
        res
    }

    /// Checks that the new tiles lie in one row or one column without gaps.
    fn check_line(&self, ps: &Vec<(usize, usize)>) -> (res: Result<EquationDirection, InvalidBoard>)
        requires
            self.wf(),
            ps@.len() > 0,
            forall|i: int| 0 <= i < ps@.len() ==> in_board((#[trigger] ps@[i]).0 as int, ps@[i].1 as int),
        ensures
            match self.line_of(ps@) {
                Ok(d) => res == Ok::<EquationDirection, InvalidBoard>(d),
                Err(e) => res matches Err(r) && r@ == e,
            },
    {
        let the_row = ps[0].0;
        let the_col = ps[0].1;
        let ghost rows = rows_of(ps@);
        let ghost cols = cols_of(ps@);
        let mut all_row = true;
        let mut all_col = true;
        let mut min_col = the_col;
        let mut max_col = the_col;
        let mut min_row = the_row;
        let mut max_row = the_row;
        let mut i: usize = 1;
        assert(rows.take(1) =~= seq![rows[0]]);
        assert(cols.take(1) =~= seq![cols[0]]);
        while i < ps.len()
            invariant
                1 <= i <= ps@.len(),
                rows == rows_of(ps@),
                cols == cols_of(ps@),
                the_row == ps@[0].0,
                the_col == ps@[0].1,
                all_row == forall|k: int| 0 <= k < i ==> #[trigger] ps@[k].0 == the_row,
                all_col == forall|k: int| 0 <= k < i ==> #[trigger] ps@[k].1 == the_col,
                min_col == seq_min(cols.take(i as int)),
                max_col == seq_max(cols.take(i as int)),
                min_row == seq_min(rows.take(i as int)),
                max_row == seq_max(rows.take(i as int)),
            decreases ps@.len() - i,
        {
            let (r, c) = ps[i];
            assert(rows.take(i + 1).drop_last() =~= rows.take(i as int));
            assert(cols.take(i + 1).drop_last() =~= cols.take(i as int));
            all_row = all_row && r == the_row;
            all_col = all_col && c == the_col;
            if c < min_col {
                min_col = c;
            }
            if c > max_col {
                max_col = c;
            }
            if r < min_row {
                min_row = r;
            }
            if r > max_row {
                max_row = r;
            }
            i += 1;
        }
        assert(rows.take(i as int) =~= rows);
        assert(cols.take(i as int) =~= cols);
        proof {
            lemma_seq_min_max_bounds(rows, 0, 15);
            lemma_seq_min_max_bounds(cols, 0, 15);
        }
        if all_row {
            let mut col = min_col;
            while col < max_col
                invariant
                    self.wf(),
                    the_row < 15,
                    min_col <= col <= max_col,
                    max_col < 15,
                    min_col == seq_min(cols),
                    max_col == seq_max(cols),
                    the_row == ps@[0].0,
                    cols == cols_of(ps@),
                    forall|k: int| 0 <= k < ps@.len() ==> #[trigger] ps@[k].0 == the_row,
                    forall|c: int| min_col <= c < col ==> #[trigger] self.occupied(the_row as int, c),
                decreases max_col - col,
            {
                if self.letters[the_row][col].is_none() {
                    assert(!self.occupied(the_row as int, col as int));
                    assert(seq_min(cols_of(ps@)) <= col < seq_max(cols_of(ps@)));
                    assert(self.line_of(ps@) == Err::<EquationDirection, InvalidBoardView>(InvalidBoardView::TilesAreNotInOneEquation));
                    return Err(InvalidBoard::TilesAreNotInOneEquation);
                }
                col += 1;
            }
            Ok(EquationDirection::Horizontal)
        } else if all_col {
            let mut row = min_row;
            while row < max_row
                invariant
                    self.wf(),
                    the_col < 15,
                    min_row <= row <= max_row,
                    max_row < 15,
                    min_row == seq_min(rows),
                    max_row == seq_max(rows),
                    the_col == ps@[0].1,
                    rows == rows_of(ps@),
                    !(forall|k: int| 0 <= k < ps@.len() ==> #[trigger] ps@[k].0 == the_row),
                    the_row == ps@[0].0,
                    forall|k: int| 0 <= k < ps@.len() ==> #[trigger] ps@[k].1 == the_col,
                    forall|r: int| min_row <= r < row ==> #[trigger] self.occupied(r, the_col as int),
                decreases max_row - row,
            {
                if self.letters[row][the_col].is_none() {
                    assert(!self.occupied(row as int, the_col as int));
                    assert(seq_min(rows_of(ps@)) <= row < seq_max(rows_of(ps@)));
                    assert(self.line_of(ps@) == Err::<EquationDirection, InvalidBoardView>(InvalidBoardView::TilesAreNotInOneEquation));
                    return Err(InvalidBoard::TilesAreNotInOneEquation);
                }
                row += 1;
            }
            Ok(EquationDirection::Vertical)
        } else {
            Err(InvalidBoard::NotAllTilesInOneLine)
        }
    }
}

impl Board {
    /// The content of the tile on square `(x, y)`.
    pub open spec fn content_at(&self, x: int, y: int) -> Tile {
        self.cell(x, y).unwrap().content
    }

    /// Every tile of `eq` lies on the board where the equation says.
    pub open spec fn equation_fits(&self, eq: EquationView) -> bool {
        forall|i: int|
            0 <= i < eq.tiles.len() ==> #[trigger] self.occupied(position_in(eq, i).0, position_in(eq, i).1)
                && self.content_at(position_in(eq, i).0, position_in(eq, i).1) == eq.tiles[i]
    }

    /// The tiles of the run from `from` to `to` (inclusive) in direction `dir`
    /// through `(x, y)`.
    pub open spec fn run_tiles(&self, x: int, y: int, dir: EquationDirection, from: int, to: int) -> Seq<Tile> {
        Seq::new(
            (to - from + 1) as nat,
            |i: int|
                match dir {
                    EquationDirection::Horizontal => self.content_at(x, from + i),
                    EquationDirection::Vertical => self.content_at(from + i, y),
                },
        )
    }

    /// Whether the square at coordinate `k` of the line through `(x, y)` in
    /// direction `dir` holds a tile.
    pub open spec fn occupied_along(&self, x: int, y: int, dir: EquationDirection, k: int) -> bool {
        match dir {
            EquationDirection::Horizontal => self.occupied(x, k),
            EquationDirection::Vertical => self.occupied(k, y),
        }
    }

    /// Whether the square at coordinate `k` of the line through `(x, y)` in
    /// direction `dir` holds a tile.
    fn has_tile_along(&self, x: usize, y: usize, dir: EquationDirection, k: usize) -> (res: bool)
        requires
            self.wf(),
            x < 15,
            y < 15,
            k < 15,
        ensures
            res == self.occupied_along(x as int, y as int, dir, k as int),
    {
        match dir {
            EquationDirection::Horizontal => self.letters[x][k].is_some(),
            EquationDirection::Vertical => self.letters[k][y].is_some(),
        }
    }

    /// Given a position on board and a direction, builds the equation
    /// containing the tile at that position. There is none if the square is
    /// empty or the tile has no neighbour in that direction.
    #[verifier::rlimit(40)]
    fn construct_equation(&self, pos: (usize, usize), direction: EquationDirection) -> (res: Option<EquationToVerify>)
        requires
            self.wf(),
            in_board(pos.0 as int, pos.1 as int),
        ensures
            match self.spec_construct_equation(pos.0 as int, pos.1 as int, direction) {
                None => res is None,
                Some(e) => res matches Some(r) && r@ == e,
            },
            res matches Some(r) ==> equation_on_board(r@) && r@.tiles.len() >= 2 && self.equation_fits(r@),
    {
        let (x, y) = pos;
        let mid_tile = match self.letters[x][y] {
            None => return None,
            Some(t) => t,
        };
        let here = match direction {
            EquationDirection::Horizontal => y,
            EquationDirection::Vertical => x,
        };
        // Walk back to the start of the run.
        let mut start = here;
        while start > 0 && self.has_tile_along(x, y, direction, start - 1)
            invariant
                self.wf(),
                x < 15,
                y < 15,
                here == (match direction {
                    EquationDirection::Horizontal => y,
                    EquationDirection::Vertical => x,
                }),
                start <= here,
                forall|k: int|
                    start <= k <= here ==> (#[trigger] self.occupied_along(x as int, y as int, direction, k as int)),
                self.run_start(x as int, y as int, direction) == (match direction {
                    EquationDirection::Horizontal => self.run_start(x as int, start as int, direction),
                    EquationDirection::Vertical => self.run_start(start as int, y as int, direction),
                }),
            decreases start,
        {
            start -= 1;
        }
        // Walk forward to the end of the run.
        let mut end = here;
        while end < BOARD_SIZE - 1 && self.has_tile_along(x, y, direction, end + 1)
            invariant
                self.wf(),
                x < 15,
                y < 15,
                here == (match direction {
                    EquationDirection::Horizontal => y,
                    EquationDirection::Vertical => x,
                }),
                start <= here <= end,
                end < 15,
                forall|k: int|
                    start <= k <= end ==> (#[trigger] self.occupied_along(x as int, y as int, direction, k as int)),
                self.run_end(x as int, y as int, direction) == (match direction {
                    EquationDirection::Horizontal => self.run_end(x as int, end as int, direction),
                    EquationDirection::Vertical => self.run_end(end as int, y as int, direction),
                }),
            decreases 15 - end,
        {
            end += 1;
        }
        assert(self.run_start(x as int, y as int, direction) == start);
        assert(self.run_end(x as int, y as int, direction) == end);
        // The tiles before the given one, the tile itself, then the tiles after it.
        let mut tiles: Vec<Tile> = Vec::new();
        let mut k = start;
        while k < here
            invariant
                self.wf(),
                x < 15,
                y < 15,
                start <= k <= here <= end < 15,
                forall|j: int|
                    start <= j <= end ==> (#[trigger] self.occupied_along(x as int, y as int, direction, j as int)),
                tiles@ =~= self.run_tiles(x as int, y as int, direction, start as int, k - 1),
            decreases here - k,
        {
            let cell = match direction {
                EquationDirection::Horizontal => self.letters[x][k],
                EquationDirection::Vertical => self.letters[k][y],
            };
            assert(self.occupied_along(x as int, y as int, direction, k as int));
            tiles.push(cell.unwrap().content());
            k += 1;
        }
        let before_empty = tiles.len() == 0;
        tiles.push(mid_tile.content());
        let mut tiles_after: Vec<Tile> = Vec::new();
        let mut k = here + 1;
        while k <= end
            invariant
                self.wf(),
                x < 15,
                y < 15,
                start <= here < k <= end + 1,
                end < 15,
                forall|j: int|
                    start <= j <= end ==> (#[trigger] self.occupied_along(x as int, y as int, direction, j as int)),
                tiles_after@ =~= self.run_tiles(x as int, y as int, direction, here + 1, k - 1),
            decreases end + 1 - k,
        {
            let cell = match direction {
                EquationDirection::Horizontal => self.letters[x][k],
                EquationDirection::Vertical => self.letters[k][y],
            };
            assert(self.occupied_along(x as int, y as int, direction, k as int));
            tiles_after.push(cell.unwrap().content());
            k += 1;
        }
        if before_empty && tiles_after.len() == 0 {
            None
        } else {
            let ghost mid = tiles@;
            tiles.append(&mut tiles_after);
            let initial_position = match direction {
                EquationDirection::Horizontal => (x, start),
                EquationDirection::Vertical => (start, y),
            };
            assert(tiles@ =~= self.run_tiles(x as int, y as int, direction, start as int, end as int));
            let eq = EquationToVerify { initial_position, direction, tiles };
            assert forall|i: int| 0 <= i < eq@.tiles.len() implies #[trigger] self.occupied(position_in(eq@, i).0, position_in(eq@, i).1)
                && self.content_at(position_in(eq@, i).0, position_in(eq@, i).1) == eq@.tiles[i] by {
                assert(self.occupied_along(x as int, y as int, direction, start + i));
            }
            Some(eq)
        }
    }
}

/// The views of a sequence of equations.
pub open spec fn equation_views(v: Seq<EquationToVerify>) -> Seq<EquationView> {
    Seq::new(v.len(), |i: int| v[i]@)
}

/// Powers of three.
pub open spec fn pow3(n: nat) -> nat
    decreases n,
{
    if n == 0 {
        1
    } else {
        3 * pow3((n - 1) as nat)
    }
}

proof fn lemma_pow3_monotone(a: nat, b: nat)
    requires
        a <= b,
    ensures
        pow3(a) <= pow3(b),
    decreases b,
{
    if a < b {
        lemma_pow3_monotone(a, (b - 1) as nat);
    }
}

/// The most points one equation can give: every factor at most 3 on at most
/// 15 tiles, every tile worth at most 4 points tripled.
pub open spec fn max_equation_points() -> int {
    14348907int * 180int
}

impl Board {
    /// The main equation through the first new tile, then the equations
    /// across every new tile.
    fn collect_equations(&self, ps: &Vec<(usize, usize)>, main_direction: EquationDirection) -> (res: Vec<EquationToVerify>)
        requires
            self.wf(),
            ps@.len() > 0,
            forall|i: int| 0 <= i < ps@.len() ==> in_board((#[trigger] ps@[i]).0 as int, ps@[i].1 as int),
        ensures
            equation_views(res@) == self.move_equations(ps@, main_direction),
            res@.len() <= ps@.len() + 1,
            forall|i: int|
                0 <= i < res@.len() ==> equation_on_board((#[trigger] res@[i])@) && res@[i]@.tiles.len() >= 2
                    && self.equation_fits(res@[i]@),
    {
        let mut equations: Vec<EquationToVerify> = Vec::new();
        if let Some(eq) = self.construct_equation(ps[0], main_direction) {
            equations.push(eq);
        }
        let ghost main = equation_views(equations@);
        assert(main =~= match self.spec_construct_equation(ps@[0].0 as int, ps@[0].1 as int, main_direction) {
            Some(eq) => seq![eq],
            None => Seq::empty(),
        });
        let cross = main_direction.opposite();
        let mut i: usize = 0;
        while i < ps.len()
            invariant
                self.wf(),
                i <= ps@.len(),
                forall|k: int| 0 <= k < ps@.len() ==> in_board((#[trigger] ps@[k]).0 as int, ps@[k].1 as int),
                main.len() <= 1,
                equation_views(equations@) =~= main + self.cross_equations(ps@, cross, i as int),
                equations@.len() <= main.len() + i,
                forall|k: int|
                    0 <= k < equations@.len() ==> equation_on_board((#[trigger] equations@[k])@)
                        && equations@[k]@.tiles.len() >= 2 && self.equation_fits(equations@[k]@),
            decreases ps@.len() - i,
        {
            let ghost before = equations@;
            assert(self.cross_equations(ps@, cross, i + 1) == match self.spec_construct_equation(
                ps@[i as int].0 as int, ps@[i as int].1 as int, cross) {
                Some(eq) => self.cross_equations(ps@, cross, i as int).push(eq),
                None => self.cross_equations(ps@, cross, i as int),
            });
            if let Some(eq) = self.construct_equation(ps[i], cross) {
                equations.push(eq);
                assert(equation_views(equations@) =~= equation_views(before).push(eq@));
            }
            i += 1;
        }
        equations
    }

    /// The points of an equation with the equals sign.
    fn equation_score(&self, eq: &EquationToVerify) -> (res: u64)
        requires
            self.wf(),
            equation_on_board(eq@),
            self.equation_fits(eq@),
        ensures
            res == self.equation_multiplier_upto(eq@, eq@.tiles.len() as int) * self.equation_base_upto(
                eq@,
                eq@.tiles.len() as int,
            ),
            res <= max_equation_points(),
    {
        let positions = eq.tile_positions();
        let mut multiplier: u64 = 1;
        let mut base_score: u64 = 0;
        let mut i: usize = 0;
        proof {
            lemma_pow3_monotone(eq@.tiles.len(), 15);
            reveal_with_fuel(pow3, 16);
        }
        while i < positions.len()
            invariant
                self.wf(),
                equation_on_board(eq@),
                self.equation_fits(eq@),
                positions@.len() == eq@.tiles.len(),
                positions@.len() <= 15,
                forall|k: int|
                    0 <= k < positions@.len() ==> (#[trigger] positions@[k]).0 as int == position_in(eq@, k).0
                        && positions@[k].1 as int == position_in(eq@, k).1,
                i <= positions@.len(),
                multiplier == self.equation_multiplier_upto(eq@, i as int),
                base_score == self.equation_base_upto(eq@, i as int),
                1 <= multiplier <= pow3(i as nat),
                pow3(positions@.len() as nat) <= 14348907,
                base_score <= 12 * i,
            decreases positions@.len() - i,
        {
            proof {
                lemma_pow3_monotone((i + 1) as nat, positions@.len() as nat);
            }
            let (x, y) = positions[i];
            assert(self.occupied(position_in(eq@, i as int).0, position_in(eq@, i as int).1));
            let tile = self.letters[x][y].unwrap();
            let score = tile.content().score();
            match tile.status() {
                TileStatus::Permanent => {
                    base_score += score;
                },
                TileStatus::Temporary => {
                    let square = self.board[x][y];
                    base_score += score * square.symbol_multiplier();
                    let m = square.equation_multiplier();
                    assert(multiplier * m <= 3 * pow3(i as nat)) by (nonlinear_arith)
                        requires multiplier <= pow3(i as nat), m <= 3, 1 <= m;
                    assert(multiplier * m >= 1) by (nonlinear_arith)
                        requires multiplier >= 1, m >= 1;
                    multiplier *= m;
                },
            }
            i += 1;
        }
        assert(multiplier * base_score <= 14348907 * 180) by (nonlinear_arith)
            requires multiplier <= 14348907, base_score <= 180;
        multiplier * base_score
    }

    /// Checks and grades the equations in order; the first invalid one is
    /// reported. `None` where checking an equation would panic.
    fn grade_equations(&self, equations: &Vec<EquationToVerify>) -> (res: Option<Result<u64, (usize, InvalidEquation)>>)
        requires
            self.wf(),
            equations@.len() <= 226,
            forall|i: int|
                0 <= i < equations@.len() ==> equation_on_board((#[trigger] equations@[i])@)
                    && equations@[i]@.tiles.len() >= 2 && self.equation_fits(equations@[i]@),
        ensures
            match self.grade_upto(equation_views(equations@), equations@.len() as int) {
                MoveOutcome::Panics => res is None,
                MoveOutcome::Scored(t) => res == Some(Ok::<u64, (usize, InvalidEquation)>(t as u64)) && 0
                    <= t <= 226 * max_equation_points(),
                MoveOutcome::Invalid(e) => res matches Some(Err((k, err))) && k < equations@.len() && e
                    == InvalidBoardView::InvalidEquation(equations@[k as int]@, err),
            },
    {
        let ghost eqs = equation_views(equations@);
        let mut total_grade: u64 = 0;
        let mut i: usize = 0;
        while i < equations.len()
            invariant
                self.wf(),
                eqs == equation_views(equations@),
                equations@.len() <= 226,
                i <= equations@.len(),
                forall|k: int|
                    0 <= k < equations@.len() ==> equation_on_board((#[trigger] equations@[k])@)
                        && equations@[k]@.tiles.len() >= 2 && self.equation_fits(equations@[k]@),
                self.grade_upto(eqs, i as int) == MoveOutcome::Scored(total_grade as int),
                total_grade <= i * max_equation_points(),
            decreases equations@.len() - i,
        {
            assert(eqs[i as int] == equations@[i as int]@);
            match equations[i].try_verify() {
                None => {
                    assert(self.grade_upto(eqs, i as int + 1) is Panics);
                    proof { self.lemma_grade_stops(eqs, i as int + 1, eqs.len() as int); }
                    return None;
                },
                Some(Err(err)) => {
                    let ghost eqv = equations@[i as int]@;
                    assert(self.grade_upto(eqs, i as int + 1) == MoveOutcome::Invalid(InvalidBoardView::InvalidEquation(eqv, err)));
                    proof { self.lemma_grade_stops(eqs, i as int + 1, eqs.len() as int); }
                    return Some(Err((i, err)));
                },
                Some(Ok(())) => {},
            }
            assert(i * max_equation_points() <= (i + 1) * max_equation_points()) by (nonlinear_arith);
            if equations[i].has_equals_sign() {
                let points = self.equation_score(&equations[i]);
                assert(total_grade + points <= (i + 1) * max_equation_points()) by (nonlinear_arith)
                    requires total_grade <= i * max_equation_points(), points <= max_equation_points();
                total_grade += points;
            }
            i += 1;
        }
        assert(total_grade <= 226 * max_equation_points()) by (nonlinear_arith)
            requires total_grade <= i * max_equation_points(), i <= 226;
        Some(Ok(total_grade))
    }

    /// Once grading has stopped on an equation, later ones change nothing.
    proof fn lemma_grade_stops(&self, eqs: Seq<EquationView>, i: int, n: int)
        requires
            0 <= i <= n,
            !(self.grade_upto(eqs, i) is Scored),
        ensures
            self.grade_upto(eqs, n) == self.grade_upto(eqs, i),
        decreases n - i,
    {
        if i < n {
            self.lemma_grade_stops(eqs, i + 1, n);
        }
    }
}

impl Board {
    proof fn lemma_new_positions_upto(&self, n: int)
        requires
            0 <= n <= 225,
        ensures
            forall|k: int|
                0 <= k < self.new_positions_upto(n).len() ==> {
                    let p = #[trigger] self.new_positions_upto(n)[k];
                    &&& in_board(p.0 as int, p.1 as int)
                    &&& self.temporary(p.0 as int, p.1 as int)
                },
            forall|x: int, y: int|
                in_board(x, y) && x * 15 + y < n && #[trigger] self.temporary(x, y) ==> positions_contain(
                    self.new_positions_upto(n),
                    x,
                    y,
                ),
        decreases n,
    {
        if n > 0 {
            self.lemma_new_positions_upto(n - 1);
            let prev = self.new_positions_upto(n - 1);
            let cur = self.new_positions_upto(n);
            let p = nth_position(n - 1);
            assert(0 <= p.0 < 15 && 0 <= p.1 < 15 && p.0 * 15 + p.1 == n - 1);
            assert forall|k: int| 0 <= k < prev.len() implies cur[k] == prev[k] by {}
            assert forall|x: int, y: int|
                in_board(x, y) && x * 15 + y < n && #[trigger] self.temporary(x, y) implies positions_contain(cur, x, y) by {
                if x * 15 + y < n - 1 {
                    let k = choose|k: int| 0 <= k < prev.len() && prev[k].0 == x && prev[k].1 == y;
                    assert(cur[k] == prev[k]);
                } else {
                    assert(x == p.0 && y == p.1);
                    assert(cur[cur.len() - 1] == (x as usize, y as usize));
                }
            }
        }
    }

    /// How many of the new tiles are not the equals sign.
    fn count_non_equals_sign(&self, ps: &Vec<(usize, usize)>) -> (res: usize)
        requires
            self.wf(),
            ps@.len() <= 225,
            forall|i: int| 0 <= i < ps@.len() ==> in_board((#[trigger] ps@[i]).0 as int, ps@[i].1 as int)
                && self.temporary(ps@[i].0 as int, ps@[i].1 as int),
        ensures
            res == self.count_non_equals(ps@, ps@.len() as int),
    {
        let mut count: usize = 0;
        let mut i: usize = 0;
        while i < ps.len()
            invariant
                self.wf(),
                ps@.len() <= 225,
                forall|k: int| 0 <= k < ps@.len() ==> in_board((#[trigger] ps@[k]).0 as int, ps@[k].1 as int)
                    && self.temporary(ps@[k].0 as int, ps@[k].1 as int),
                i <= ps@.len(),
                count == self.count_non_equals(ps@, i as int),
                count <= i,
            decreases ps@.len() - i,
        {
            let (x, y) = ps[i];
            assert(self.temporary(ps@[i as int].0 as int, ps@[i as int].1 as int));
            let is_equals = match self.letters[x][y].unwrap().content() {
                Tile::EqualsSign => true,
                _ => false,
            };
            if !is_equals {
                count += 1;
            }
            i += 1;
        }
        count
    }

    /// Checks the move on the board (see `spec_check_move`) without changing
    /// it. `None` where checking would panic.
    pub fn check_move(&self) -> (res: Option<Result<u64, InvalidBoard>>)
        requires
            self.wf(),
        ensures
            match self.spec_check_move() {
                MoveOutcome::Panics => res is None,
                MoveOutcome::Scored(t) => res == Some(Ok::<u64, InvalidBoard>(t as u64)) && 0 <= t <= u64::MAX,
                MoveOutcome::Invalid(e) => res matches Some(Err(r)) && r@ == e,
            },
    {
        // The first move must cover the central square.
        if self.letters[BOARD_SIZE / 2][BOARD_SIZE / 2].is_none() {
            return Some(Err(InvalidBoard::FirstWordMustBeOnCenter));
        }
        // A valid move places at least one tile on the board.
        let new_tiles_positions = self.new_tile_positions();
        if new_tiles_positions.len() == 0 {
            return Some(Err(InvalidBoard::NoNewTilesOnBoard));
        }
        // All new tiles in one line, without gaps.
        let main_direction = match self.check_line(&new_tiles_positions) {
            Err(e) => return Some(Err(e)),
            Ok(d) => d,
        };
        // Every tile must be connected to the center.
        if !self.tiles_connected() {
            return Some(Err(InvalidBoard::TilesAreNotConnected));
        }
        // The main equation and the equations across it.
        let mut equations = self.collect_equations(&new_tiles_positions, main_direction);
        let ghost eqs = equation_views(equations@);
        let total_grade = match self.grade_equations(&equations) {
            None => return None,
            Some(Err((k, err))) => {
                let ghost eqv = equations@[k as int]@;
                let eq = equations.remove(k);
                assert(eq@ == eqv);
                return Some(Err(InvalidBoard::InvalidEquation(eq, err)));
            },
            Some(Ok(t)) => t,
        };
        // Using all the tiles (the equals sign does not count) gives a bonus.
        let used = self.count_non_equals_sign(&new_tiles_positions);
        proof {
            assert(226 * max_equation_points() + 50 <= u64::MAX);
        }
        if used == PLAYER_HAND_SIZE_WITHOUT_EQUALS_SIGN {
            Some(Ok(total_grade + BONUS_FOR_USING_ALL_TILES))
        } else {
            Some(Ok(total_grade))
        }
    }

    /// Whether checking the move would panic.
    pub fn move_panics(&self) -> (res: bool)
        requires
            self.wf(),
        ensures
            res == (self.spec_check_move() is Panics),
    {
        self.check_move().is_none()
    }

    /// Given a board with some temporary tiles, verifies whether the new
    /// equation is properly put on the board. If not, the board stays as it
    /// is and the reason is returned. If so, the score of the move is
    /// returned and every temporary tile becomes permanent. The
    /// precondition leaves out the boards on which the check panics.
    pub fn verify_and_grade_move(&mut self) -> (res: Result<u64, InvalidBoard>)
        requires
            old(self).wf(),
            !(old(self).spec_check_move() is Panics),
        ensures
            final(self).wf(),
            final(self).board == old(self).board,
            match old(self).spec_check_move() {
                MoveOutcome::Scored(t) => res == Ok::<u64, InvalidBoard>(t as u64) && 0 <= t <= u64::MAX && forall|x: int, y: int|
                    in_board(x, y) ==> #[trigger] final(self).cell(x, y) == made_permanent(old(self).cell(x, y)),
                MoveOutcome::Invalid(e) => res matches Err(r) && r@ == e && *final(self) == *old(self),
                MoveOutcome::Panics => false,
            },
    {
        let total = match self.check_move() {
            None => return Err(InvalidBoard::NoNewTilesOnBoard),
            Some(Err(e)) => return Err(e),
            Some(Ok(t)) => t,
        };
        // Mark all new tiles as permanent.
        let new_tiles_positions = self.new_tile_positions();
        proof {
            self.lemma_new_positions_upto(225);
        }
        let ghost b0 = *self;
        let mut k: usize = 0;
        while k < new_tiles_positions.len()
            invariant
                self.wf(),
                b0.wf(),
                self.board == b0.board,
                k <= new_tiles_positions@.len(),
                new_tiles_positions@ == b0.new_positions(),
                forall|i: int| 0 <= i < new_tiles_positions@.len() ==> in_board((#[trigger] new_tiles_positions@[i]).0 as int,
                    new_tiles_positions@[i].1 as int),
                forall|x: int, y: int|
                    in_board(x, y) ==> #[trigger] self.cell(x, y) == if positions_contain(
                        new_tiles_positions@.take(k as int),
                        x,
                        y,
                    ) {
                        made_permanent(b0.cell(x, y))
                    } else {
                        b0.cell(x, y)
                    },
            decreases new_tiles_positions@.len() - k,
        {
            let (x, y) = new_tiles_positions[k];
            let ghost prev = *self;
            if let Some(tile) = self.letters[x][y] {
                let mut tile = tile;
                tile.mark_as_permanent();
                self.letters[x][y] = Some(tile);
            }
            proof {
                let t = new_tiles_positions@.take(k + 1);
                assert(t[k as int] == (x, y));
                assert forall|a: int, b: int| in_board(a, b) implies #[trigger] self.cell(a, b) == if positions_contain(t, a, b) {
                    made_permanent(b0.cell(a, b))
                } else {
                    b0.cell(a, b)
                } by {
                    if a == x && b == y {
                        assert(positions_contain(t, a, b));
                    } else {
                        assert(self.cell(a, b) == prev.cell(a, b));
                    }
                    if positions_contain(new_tiles_positions@.take(k as int), a, b) {
                        let i = choose|i: int| 0 <= i < k && new_tiles_positions@.take(k as int)[i].0 == a
                            && new_tiles_positions@.take(k as int)[i].1 == b;
                        assert(t[i] == new_tiles_positions@.take(k as int)[i]);
                    }
                    if positions_contain(t, a, b) {
                        let i = choose|i: int| 0 <= i < t.len() && t[i].0 == a && t[i].1 == b;
                        if i < k {
                            assert(new_tiles_positions@.take(k as int)[i] == t[i]);
                        }
                    }
                }
            }
            k += 1;
        }
        proof {
            assert(new_tiles_positions@.take(k as int) =~= new_tiles_positions@);
            assert forall|x: int, y: int| in_board(x, y) implies #[trigger] self.cell(x, y) == made_permanent(b0.cell(x, y)) by {
                if !positions_contain(new_tiles_positions@, x, y) {
                    assert(x * 15 + y < 225);
                    assert(!b0.temporary(x, y));
                    match b0.cell(x, y) {
                        Some(t) => {
                            assert(t.status == TileStatus::Permanent);
                        },
                        None => {},
                    }
                }
            }
        }
        Ok(total)
    }

    /// Checks and grades the move where that does not panic; `None` (and the
    /// board unchanged) where it would.
    pub fn try_verify_and_grade_move(&mut self) -> (res: Option<Result<u64, InvalidBoard>>)
        requires
            old(self).wf(),
        ensures
            final(self).wf(),
            final(self).board == old(self).board,
            match old(self).spec_check_move() {
                MoveOutcome::Scored(t) => res == Some(Ok::<u64, InvalidBoard>(t as u64)) && forall|x: int, y: int|
                    in_board(x, y) ==> #[trigger] final(self).cell(x, y) == made_permanent(old(self).cell(x, y)),
                MoveOutcome::Invalid(e) => res matches Some(Err(r)) && r@ == e && *final(self) == *old(self),
                MoveOutcome::Panics => res is None && *final(self) == *old(self),
            },
    {
        if self.move_panics() {
            None
        } else {
            Some(self.verify_and_grade_move())
        }
    }
}

impl Board {
    /// The contents of the temporary tiles only grow along the board.
    pub proof fn lemma_temp_contents_grow(&self, k: int, n: int)
        requires
            0 <= k <= n,
        ensures
            self.temp_contents_upto(k).len() <= self.temp_contents_upto(n).len(),
        decreases n - k,
    {
        if k < n {
            self.lemma_temp_contents_grow(k, n - 1);
        }
    }
}

impl Board {
    /// Without temporary tiles there are no tiles of the move being made.
    pub proof fn lemma_no_temporary(&self, n: int)
        requires
            0 <= n <= 225,
            forall|x: int, y: int| in_board(x, y) ==> !#[trigger] self.temporary(x, y),
        ensures
            self.temp_contents_upto(n).len() == 0,
        decreases n,
    {
        if n > 0 {
            self.lemma_no_temporary(n - 1);
            let p = nth_position(n - 1);
            assert(in_board(p.0, p.1));
        }
    }

    /// Without temporary tiles no square holds a tile of the move being made.
    pub proof fn lemma_no_new_positions(&self, n: int)
        requires
            0 <= n <= 225,
            forall|x: int, y: int| in_board(x, y) ==> !#[trigger] self.temporary(x, y),
        ensures
            self.new_positions_upto(n).len() == 0,
        decreases n,
    {
        if n > 0 {
            self.lemma_no_new_positions(n - 1);
            let p = nth_position(n - 1);
            assert(in_board(p.0, p.1));
        }
    }

    /// Once a move has been scored and its tiles made permanent, checking the
    /// board again reports that no new tiles were laid.
    pub proof fn lemma_graded_board_has_no_new_tiles(before: Board, after: Board)
        requires
            before.wf(),
            before.spec_check_move() is Scored,
            after.wf(),
            after.board == before.board,
            forall|x: int, y: int| in_board(x, y) ==> #[trigger] after.cell(x, y) == made_permanent(before.cell(x, y)),
        ensures
            after.spec_check_move() == MoveOutcome::Invalid(InvalidBoardView::NoNewTilesOnBoard),
    {
        assert(in_board(7, 7));
        assert(after.cell(7, 7) == made_permanent(before.cell(7, 7)));
        assert forall|x: int, y: int| in_board(x, y) implies !#[trigger] after.temporary(x, y) by {
            assert(after.cell(x, y) == made_permanent(before.cell(x, y)));
        }
        after.lemma_no_new_positions(225);
    }

    /// Changing one square changes the number of tiles of the move by what
    /// that square adds or takes away.
    pub proof fn lemma_update_temp_len(&self, old: Board, x: int, y: int, v: Option<TileOnBoard>, n: int)
        requires
            self.is_update_of(old, x, y, v),
            in_board(x, y),
            0 <= n <= 225,
        ensures
            self.temp_contents_upto(n).len() + (if x * 15 + y < n && old.temporary(x, y) { 1int } else { 0 })
                == old.temp_contents_upto(n).len() + (if x * 15 + y < n && self.temporary(x, y) { 1int } else { 0 }),
        decreases n,
    {
        if n > 0 {
            self.lemma_update_temp_len(old, x, y, v, n - 1);
            let p = nth_position(n - 1);
            assert(in_board(p.0, p.1));
            if n - 1 == x * 15 + y {
                assert(p == (x, y));
            } else {
                assert(p.0 * 15 + p.1 == n - 1);
                assert(p != (x, y));
                assert(self.cell(p.0, p.1) == old.cell(p.0, p.1));
            }
        }
    }
}

/// The name of a direction.
pub open spec fn direction_text(d: EquationDirection) -> Seq<char> {
    match d {
        EquationDirection::Horizontal => "Horizontal"@,
        EquationDirection::Vertical => "Vertical"@,
    }
}

/// How an equation is described: its direction, its first square counted
/// from one, and its tiles.
pub open spec fn equation_text(eq: EquationView) -> Seq<char> {
    direction_text(eq.direction) + " equation starting at ("@ + decimal((eq.initial_position.0 + 1) as nat)
        + ", "@ + decimal((eq.initial_position.1 + 1) as nat) + ") ["@ + tiles_text(eq.tiles) + "]"@
}

/// The position of the equation can be counted from one.
pub open spec fn equation_text_ok(eq: EquationView) -> bool {
    eq.initial_position.0 < usize::MAX && eq.initial_position.1 < usize::MAX
}

/// The message that explains why a move is refused.
pub open spec fn invalid_board_text(e: InvalidBoardView) -> Seq<char> {
    match e {
        InvalidBoardView::NoNewTilesOnBoard => "No new tiles on board (if you want to pass or reroll, choose appropriate option)."@,
        InvalidBoardView::FirstWordMustBeOnCenter => "The first equation must cover the central square."@,
        InvalidBoardView::NotAllTilesInOneLine => "All tiles must be in one line."@,
        InvalidBoardView::TilesAreNotInOneEquation => "All tiles should belong to one main equation."@,
        InvalidBoardView::TilesAreNotConnected => "All tiles should be connected."@,
        InvalidBoardView::InvalidEquation(eq, err) => equation_text(eq) + " is not valid. "@ + invalid_equation_text(err),
    }
}

/// The text of a refusal can be written: an equation's position can be
/// counted from one.
pub open spec fn invalid_board_text_ok(e: InvalidBoardView) -> bool {
    e matches InvalidBoardView::InvalidEquation(eq, _) ==> equation_text_ok(eq)
}

impl EquationDirection {
    /// The name of the direction.
    pub fn to_string(&self) -> (res: String)
        ensures
            res@ == direction_text(*self),
    {
        match self {
            EquationDirection::Horizontal => String::from_str("Horizontal"),
            EquationDirection::Vertical => String::from_str("Vertical"),
        }
    }
}

impl EquationToVerify {
    /// Describes the equation: direction, first square (counted from one)
    /// and tiles.
    pub fn to_string(&self) -> (res: String)
        requires
            equation_text_ok(self@),
        ensures
            res@ == equation_text(self@),
    {
        let mut s = self.direction.to_string();
        s.append(" equation starting at (");
        let x = self.initial_position.0 + 1;
        let xt = u64_to_string(x as u64);
        s.append(xt.as_str());
        s.append(", ");
        let y = self.initial_position.1 + 1;
        let yt = u64_to_string(y as u64);
        s.append(yt.as_str());
        s.append(") [");
        let ghost prefix = s@;
        let mut i: usize = 0;
        while i < self.tiles.len()
            invariant
                i <= self.tiles@.len(),
                s@ == prefix + tiles_text(self.tiles@.take(i as int)),
            decreases self.tiles@.len() - i,
        {
            let t = self.tiles[i].to_string();
            s.append(t.as_str());
            i += 1;
            assert(tiles_text(self.tiles@.take(i as int)) =~= tiles_text(self.tiles@.take(i - 1)) + seq![
                tile_char(self.tiles@[i - 1]),
            ]);
        }
        assert(self.tiles@.take(i as int) =~= self.tiles@);
        s.append("]");
        s
    }
}

impl InvalidBoard {
    /// The message that explains why the move is refused.
    pub fn to_string(&self) -> (res: String)
        requires
            invalid_board_text_ok(self@),
        ensures
            res@ == invalid_board_text(self@),
    {
        match self {
            InvalidBoard::NoNewTilesOnBoard => String::from_str(
                "No new tiles on board (if you want to pass or reroll, choose appropriate option).",
            ),
            InvalidBoard::FirstWordMustBeOnCenter => String::from_str("The first equation must cover the central square."),
            InvalidBoard::NotAllTilesInOneLine => String::from_str("All tiles must be in one line."),
            InvalidBoard::TilesAreNotInOneEquation => String::from_str("All tiles should belong to one main equation."),
            InvalidBoard::TilesAreNotConnected => String::from_str("All tiles should be connected."),
            InvalidBoard::InvalidEquation(eq, err) => {
                let mut s = eq.to_string();
                s.append(" is not valid. ");
                let et = err.to_string();
                s.append(et.as_str());
                s
            },
        }
    }
}

/// What square `(x, y)` adds to the tiles of the move being made.
pub open spec fn temp_at(b: Board, x: int, y: int) -> Multiset<Tile> {
    if b.temporary(x, y) {
        Multiset::singleton(b.cell(x, y).unwrap().content)
    } else {
        Multiset::empty()
    }
}

impl Board {
    /// Changing one square changes the tiles of the move by what that square
    /// adds or takes away.
    pub proof fn lemma_update_temp_multiset(&self, old: Board, x: int, y: int, v: Option<TileOnBoard>, n: int)
        requires
            self.is_update_of(old, x, y, v),
            in_board(x, y),
            0 <= n <= 225,
        ensures
            self.temp_contents_upto(n).to_multiset().add(
                if x * 15 + y < n { temp_at(old, x, y) } else { Multiset::empty() },
            ) == old.temp_contents_upto(n).to_multiset().add(
                if x * 15 + y < n { temp_at(*self, x, y) } else { Multiset::empty() },
            ),
        decreases n,
    {
        broadcast use vstd::multiset::group_multiset_axioms, vstd::multiset::group_multiset_properties,
            vstd::seq_lib::group_to_multiset_ensures;

        if n == 0 {
            assert(self.temp_contents_upto(0).to_multiset() =~= Multiset::empty());
            assert(old.temp_contents_upto(0).to_multiset() =~= Multiset::empty());
        } else {
            self.lemma_update_temp_multiset(old, x, y, v, n - 1);
            let p = nth_position(n - 1);
            assert(in_board(p.0, p.1));
            let a = self.temp_contents_upto(n - 1).to_multiset();
            let b = old.temp_contents_upto(n - 1).to_multiset();
            if n - 1 == x * 15 + y {
                assert(p == (x, y));
                assert(a.add(Multiset::empty()) =~= a);
                assert(b.add(Multiset::empty()) =~= b);
                assert(a == b);
                assert(self.temp_contents_upto(n).to_multiset() =~= a.add(temp_at(*self, x, y)));
                assert(old.temp_contents_upto(n).to_multiset() =~= b.add(temp_at(old, x, y)));
                assert(a.add(temp_at(*self, x, y)).add(temp_at(old, x, y)) =~= b.add(temp_at(old, x, y)).add(
                    temp_at(*self, x, y),
                ));
            } else {
                assert(p.0 * 15 + p.1 == n - 1);
                assert(p != (x, y));
                assert(self.cell(p.0, p.1) == old.cell(p.0, p.1));
                let e_old = if x * 15 + y < n - 1 { temp_at(old, x, y) } else { Multiset::empty() };
                let e_new = if x * 15 + y < n - 1 { temp_at(*self, x, y) } else { Multiset::empty() };
                assert(a.add(e_old) =~= b.add(e_new));
                assert(self.temp_contents_upto(n).to_multiset() =~= a.add(temp_at(*self, p.0, p.1)));
                assert(old.temp_contents_upto(n).to_multiset() =~= b.add(temp_at(old, p.0, p.1)));
                let t = temp_at(*self, p.0, p.1);
                assert(t == temp_at(old, p.0, p.1));
                assert(a.add(t).add(e_old) =~= a.add(e_old).add(t));
                assert(b.add(t).add(e_new) =~= b.add(e_new).add(t));
                assert(self.temp_contents_upto(n).to_multiset().add(e_old) == old.temp_contents_upto(n).to_multiset().add(
                    e_new,
                ));
            }
        }
    }
}

} // verus!
