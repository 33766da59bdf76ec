use vstd::prelude::*;

use crate::consts::{DIGITS_IN_BAG, OPERATORS_IN_BAG};
use crate::rational::{
    difference_of, div_panics, is_small, lowest_terms, pair_of, product_of, quotient_of,
    ratio_checked_add, ratio_checked_div, ratio_checked_mul, ratio_checked_sub, same_value, sum_of,
    Rational,
};
use crate::text::{digit_char, push_char, u64_to_string};

verus! {

/// A digit tile.
#[derive(Copy, Clone, PartialEq, Eq, Hash, Debug, Structural)]
pub enum Digit {
    D0,
    D1,
    D2,
    D3,
    D4,
    D5,
    D6,
    D7,
    D8,
    D9,
}

/// The digit whose value is `v` (for `0 <= v < 10`).
pub open spec fn digit_of(v: int) -> Digit {
    if v == 0 {
        Digit::D0
    } else if v == 1 {
        Digit::D1
    } else if v == 2 {
        Digit::D2
    } else if v == 3 {
        Digit::D3
    } else if v == 4 {
        Digit::D4
    } else if v == 5 {
        Digit::D5
    } else if v == 6 {
        Digit::D6
    } else if v == 7 {
        Digit::D7
    } else if v == 8 {
        Digit::D8
    } else {
        Digit::D9
    }
}

impl Digit {
    /// The numeric value of the digit.
    pub open spec fn spec_value(self) -> int {
        match self {
            Digit::D0 => 0,
            Digit::D1 => 1,
            Digit::D2 => 2,
            Digit::D3 => 3,
            Digit::D4 => 4,
            Digit::D5 => 5,
            Digit::D6 => 6,
            Digit::D7 => 7,
            Digit::D8 => 8,
            Digit::D9 => 9,
        }
    }

    /// All ten digits, in increasing order of value.
    pub fn all() -> (res: Vec<Digit>)
        ensures
            res@.len() == 10,
            forall|i: int| 0 <= i < 10 ==> #[trigger] res@[i] == digit_of(i),
    {
        vec![
            Digit::D0,
            Digit::D1,
            Digit::D2,
            Digit::D3,
            Digit::D4,
            Digit::D5,
            Digit::D6,
            Digit::D7,
            Digit::D8,
            Digit::D9,
        ]
    }

    pub fn value(&self) -> (v: i64)
        ensures
            v == self.spec_value(),
            0 <= v < 10,
    {
        match self {
            Digit::D0 => 0,
            Digit::D1 => 1,
            Digit::D2 => 2,
            Digit::D3 => 3,
            Digit::D4 => 4,
            Digit::D5 => 5,
            Digit::D6 => 6,
            Digit::D7 => 7,
            Digit::D8 => 8,
            Digit::D9 => 9,
        }
    }
}

/// An arithmetic operator tile.
#[derive(Copy, Clone, PartialEq, Eq, Hash, Debug, Structural)]
pub enum MathOperation {
    Plus,
    Minus,
    Times,
    Div,
}

/// The operator at index `i` of `MathOperation::all()`.
pub open spec fn operation_of(i: int) -> MathOperation {
    if i == 0 {
        MathOperation::Plus
    } else if i == 1 {
        MathOperation::Minus
    } else if i == 2 {
        MathOperation::Times
    } else {
        MathOperation::Div
    }
}

impl MathOperation {
    /// Binding strength: a smaller number binds tighter.
    pub open spec fn spec_precedence(self) -> u8 {
        match self {
            MathOperation::Plus => 2,
            MathOperation::Minus => 2,
            MathOperation::Times => 1,
            MathOperation::Div => 1,
        }
    }

    /// `*` and `/`, which bind tighter than `+` and `-`.
    pub open spec fn is_multiplicative(self) -> bool {
        self is Times || self is Div
    }

    /// The four operators: `+`, `-`, `*`, `/`.
    pub fn all() -> (res: Vec<MathOperation>)
        ensures
            res@.len() == 4,
            forall|i: int| 0 <= i < 4 ==> #[trigger] res@[i] == operation_of(i),
    {
        vec![MathOperation::Plus, MathOperation::Minus, MathOperation::Times, MathOperation::Div]
    }

    /// The exact result of applying the operator, as a fraction that is not
    /// yet reduced (its denominator is zero for a division by zero).
    pub open spec fn spec_exact(self, a: (i64, i64), b: (i64, i64)) -> (int, int) {
        match self {
            MathOperation::Plus => sum_of(a, b),
            MathOperation::Minus => difference_of(a, b),
            MathOperation::Times => product_of(a, b),
            MathOperation::Div => quotient_of(a, b),
        }
    }

    /// What `num`'s checked arithmetic returns for the operator.
    pub open spec fn outside_result(self, a: (i64, i64), b: (i64, i64)) -> Option<(i64, i64)> {
        match self {
            MathOperation::Plus => ratio_checked_add(a, b),
            MathOperation::Minus => ratio_checked_sub(a, b),
            MathOperation::Times => ratio_checked_mul(a, b),
            MathOperation::Div => ratio_checked_div(a, b),
        }
    }

    /// Whether applying the operator gives a fraction: always for small
    /// operands, unless dividing by zero; for larger ones as far as `num`'s
    /// checked arithmetic does not overflow.
    pub open spec fn succeeds(self, a: (i64, i64), b: (i64, i64)) -> bool {
        ||| is_small(a) && is_small(b) && !(self is Div && b.0 == 0)
        ||| self.outside_result(a, b) is Some
    }

    /// What applying the operator to two fractions gives: the exact result
    /// in lowest terms, or `None` on overflow or division by zero.
    pub open spec fn spec_eval(self, a: (i64, i64), b: (i64, i64)) -> Option<(i64, i64)> {
        if self.succeeds(a, b) {
            let q = lowest_terms(self.spec_exact(a, b));
            Some((q.0 as i64, q.1 as i64))
        } else {
            None
        }
    }

    /// The operands on which applying the operator panics inside `num`.
    pub open spec fn eval_panics(self, a: (i64, i64), b: (i64, i64)) -> bool {
        self is Div && div_panics(a, b)
    }

    /// Applies the operator with checked rational arithmetic.
    pub fn eval(&self, a: Rational, b: Rational) -> (res: Option<Rational>)
        requires
            a@.1 > 0,
            b@.1 > 0,
            !self.eval_panics(a@, b@),
        ensures
            match res {
                Some(r) => self.spec_eval(a@, b@) == Some(r@),
                None => self.spec_eval(a@, b@) is None,
            },
            res matches Some(r) ==> r@.1 > 0 && same_value(pair_of(r@), self.spec_exact(a@, b@)),
            *self is Div && b@.0 == 0 ==> res is None,
            is_small(a@) && is_small(b@) && !(*self is Div && b@.0 == 0) ==> res is Some,
    {
        match self {
            MathOperation::Plus => a.checked_add(&b),
            MathOperation::Minus => a.checked_sub(&b),
            MathOperation::Times => a.checked_mul(&b),
            MathOperation::Div => a.checked_div(&b),
        }
    }

    pub fn precedence(&self) -> (p: u8)
        ensures
            p == self.spec_precedence(),
    {
        match self {
            MathOperation::Plus => 2,
            MathOperation::Minus => 2,
            MathOperation::Times => 1,
            MathOperation::Div => 1,
        }
    }
}

/// A tile: a digit, an operator or the equals sign.
#[derive(Copy, Clone, PartialEq, Eq, Hash, Debug, Structural)]
pub enum Tile {
    Digit(Digit),
    Op(MathOperation),
    EqualsSign,
}

/// Points of a tile: digits 0-4 and `+` are worth 1, digits 5-9 and `-` 2,
/// `*` 3, `/` 4 and the equals sign nothing.
pub open spec fn tile_score(t: Tile) -> int {
    match t {
        Tile::Digit(d) => if d.spec_value() <= 4 { 1 } else { 2 },
        Tile::Op(op) => match op {
            MathOperation::Plus => 1,
            MathOperation::Minus => 2,
            MathOperation::Times => 3,
            MathOperation::Div => 4,
        },
        Tile::EqualsSign => 0,
    }
}

/// The fresh bag: six copies of each digit (0 to 9), then nine copies of each
/// operator (`+`, `-`, `*`, `/`). Equals signs are never in the bag.
pub open spec fn initial_bag() -> Seq<Tile> {
    Seq::new(
        96,
        |i: int|
            if i < 60 {
                Tile::Digit(digit_of(i / 6))
            } else {
                Tile::Op(operation_of((i - 60) / 9))
            },
    )
}

impl Tile {
    pub fn score(&self) -> (s: u64)
        ensures
            s == tile_score(*self),
            s <= 4,
    {
        match self {
            Tile::Digit(d) => match d {
                Digit::D0 | Digit::D1 | Digit::D2 | Digit::D3 | Digit::D4 => 1,
                _ => 2,
            },
            Tile::Op(op) => match op {
                MathOperation::Plus => 1,
                MathOperation::Minus => 2,
                MathOperation::Times => 3,
                MathOperation::Div => 4,
            },
            Tile::EqualsSign => 0,
        }
    }

    /// The tiles a game starts with. Equals signs are not included: they are
    /// handed out by need, so that every player always owns exactly one.
    pub fn initial_bag_of_tiles() -> (res: Vec<Tile>)
        ensures
            res@ == initial_bag(),
    {
        let mut all_tiles: Vec<Tile> = Vec::new();
        let digits = Digit::all();
        let mut k: usize = 0;
        while k < digits.len()
            invariant
                digits@.len() == 10,
                forall|i: int| 0 <= i < 10 ==> #[trigger] digits@[i] == digit_of(i),
                k <= 10,
                all_tiles@.len() == 6 * k,
                forall|i: int| 0 <= i < all_tiles@.len() ==> #[trigger] all_tiles@[i] == initial_bag()[i],
            decreases 10 - k,
        {
            let d = digits[k];
            let mut c: usize = 0;
            while c < DIGITS_IN_BAG
                invariant
                    k < 10,
                    d == digit_of(k as int),
                    c <= 6,
                    all_tiles@.len() == 6 * k + c,
                    forall|i: int| 0 <= i < all_tiles@.len() ==> #[trigger] all_tiles@[i] == initial_bag()[i],
                decreases 6 - c,
            {
                assert((6 * k + c) / 6 == k) by (nonlinear_arith)
                    requires c < 6;
                all_tiles.push(Tile::Digit(d));
                c += 1;
            }
            k += 1;
        }
        let ops = MathOperation::all();
        let mut k: usize = 0;
        while k < ops.len()
            invariant
                ops@.len() == 4,
                forall|i: int| 0 <= i < 4 ==> #[trigger] ops@[i] == operation_of(i),
                k <= 4,
                all_tiles@.len() == 60 + 9 * k,
                forall|i: int| 0 <= i < all_tiles@.len() ==> #[trigger] all_tiles@[i] == initial_bag()[i],
            decreases 4 - k,
        {
            let op = ops[k];
            let mut c: usize = 0;
            while c < OPERATORS_IN_BAG
                invariant
                    k < 4,
                    op == operation_of(k as int),
                    c <= 9,
                    all_tiles@.len() == 60 + 9 * k + c,
                    forall|i: int| 0 <= i < all_tiles@.len() ==> #[trigger] all_tiles@[i] == initial_bag()[i],
                decreases 9 - c,
            {
                assert((9 * k + c) / 9 == k) by (nonlinear_arith)
                    requires c < 9;
                all_tiles.push(Tile::Op(op));
                c += 1;
            }
            k += 1;
        }
        assert(all_tiles@ =~= initial_bag());
        all_tiles
    }
}

/// Whether a tile on the board belongs to an earlier move or to the move being made.
#[derive(Copy, Clone, PartialEq, Eq, Hash, Debug, Structural)]
pub enum TileStatus {
    Permanent,
    Temporary,
}

/// A tile lying on the board.
#[derive(Copy, Clone, PartialEq, Eq, Debug, Structural)]
pub struct TileOnBoard {
    pub content: Tile,
    pub status: TileStatus,
}

impl TileOnBoard {
    /// A tile just put down in the current move.
    pub fn new(content: Tile) -> (t: TileOnBoard)
        ensures
            t.content == content,
            t.status == TileStatus::Temporary,
    {
        TileOnBoard { content, status: TileStatus::Temporary }
    }

    pub fn content(&self) -> (t: Tile)
        ensures
            t == self.content,
    {
        self.content
    }

    pub fn status(&self) -> (s: TileStatus)
        ensures
            s == self.status,
    {
        self.status
    }

    pub fn mark_as_permanent(&mut self)
        ensures
            final(self).content == old(self).content,
            final(self).status == TileStatus::Permanent,
    {
        self.status = TileStatus::Permanent;
    }
}

/// The character a tile shows: its digit, its operator, or `=`.
pub open spec fn tile_char(t: Tile) -> char {
    match t {
        Tile::Digit(d) => digit_char(d.spec_value() as nat),
        Tile::Op(MathOperation::Plus) => '+',
        Tile::Op(MathOperation::Minus) => '-',
        Tile::Op(MathOperation::Times) => '*',
        Tile::Op(MathOperation::Div) => '/',
        Tile::EqualsSign => '=',
    }
}

/// The characters the tiles show, one per tile.
pub open spec fn tiles_text(ts: Seq<Tile>) -> Seq<char> {
    Seq::new(ts.len(), |i: int| tile_char(ts[i]))
}

impl Digit {
    /// The digit as text: its value in decimal.
    pub fn to_string(&self) -> (res: String)
        ensures
            res@ == seq![tile_char(Tile::Digit(*self))],
    {
        let v = self.value();
        u64_to_string(v as u64)
    }
}

impl MathOperation {
    /// The operator as text.
    pub fn to_string(&self) -> (res: String)
        ensures
            res@ == seq![tile_char(Tile::Op(*self))],
    {
        let c = match self {
            MathOperation::Plus => '+',
            MathOperation::Minus => '-',
            MathOperation::Times => '*',
            MathOperation::Div => '/',
        };
        let mut s = String::new();
        push_char(&mut s, c);
        s
    }
}

impl Tile {
    /// The tile as text.
    pub fn to_string(&self) -> (res: String)
        ensures
            res@ == seq![tile_char(*self)],
    {
        match self {
            Tile::Digit(d) => d.to_string(),
            Tile::Op(op) => op.to_string(),
            Tile::EqualsSign => {
                let mut s = String::new();
                push_char(&mut s, '=');
                s
            },
        }
    }
}

} // verus!
