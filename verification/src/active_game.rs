use vstd::prelude::*;

use rand::rngs::ThreadRng;
use rand::seq::SliceRandom;

use crate::board::{
    equals_indices, has_equals, temp_at, in_board, invalid_board_text, invalid_board_text_ok, lemma_equals_indices,
    made_permanent, nth_position, without_temporary, Board, InvalidBoard, InvalidBoardView, MoveOutcome,
};
use crate::text::{decimal, u64_to_string};
use vstd::multiset::Multiset;
use crate::consts::{PLAYER_HAND_SIZE_WITHOUT_EQUALS_SIGN, PLAYER_HAND_SIZE_WITH_EQUALS_SIGN};
pub use crate::input::PointerButton;
use crate::tiles::{initial_bag, Tile, TileOnBoard, TileStatus};

verus! {

#[verifier::external_type_specification]
#[verifier::external_body]
pub struct ExThreadRng(ThreadRng);

/// Gets the thread-local random number generator with `rand::thread_rng`.
/// Nothing is stated of it: it is only handed to `shuffle_tiles`.
#[verifier::external_body]
fn new_rng() -> ThreadRng {
    rand::thread_rng()
}

/// Shuffles the tiles with `SliceRandom::shuffle` (a Fisher-Yates shuffle
/// made of swaps). Trusted: the result holds the same tiles, as a
/// multiset; which order comes out depends on chance and is not stated.
#[verifier::external_body]
fn shuffle_tiles(tiles: &mut Vec<Tile>, rng: &mut ThreadRng)
    ensures
        final(tiles)@.to_multiset() == old(tiles)@.to_multiset(),
        final(tiles)@.len() == old(tiles)@.len(),
{
    tiles.shuffle(rng)
}

/// A player of the game.
pub struct Player {
    pub name: String,
    /// The tiles in hand, the equals sign included.
    pub hand: Vec<Tile>,
    pub score: u64,
}

impl Player {
    pub fn hand_len(&self) -> (n: usize)
        ensures
            n == self.hand@.len(),
    {
        self.hand.len()
    }
}

/// The buttons beside the board.
#[derive(Clone, Copy, PartialEq, Eq, Debug, Structural)]
pub enum ControlButton {
    ConfirmMove,
    RerollTtiles,
    PassTurn,
    ConfirmReroll,
    CancelReroll,
}

/// The player is putting tiles on the board; `tile_in_move` is the tile
/// being dragged, if any.
#[derive(Clone, Copy, PartialEq, Eq, Debug, Structural)]
pub struct PlacingTiles {
    pub tile_in_move: Option<Tile>,
}

impl PlacingTiles {
    pub fn new() -> (p: PlacingTiles)
        ensures
            p.tile_in_move is None,
    {
        PlacingTiles { tile_in_move: None }
    }
}

/// The player is choosing tiles to exchange: `tiles_selected[i]` tells
/// whether the `i`-th tile of the hand is chosen. The equals sign is never
/// chosen.
pub struct Rerolling {
    pub tiles_selected: Vec<bool>,
}

impl Rerolling {
    pub fn new() -> (r: Rerolling)
        ensures
            r.tiles_selected@ == Seq::new(10, |i: int| false),
    {
        let mut tiles_selected: Vec<bool> = Vec::new();
        let mut i: usize = 0;
        while i < PLAYER_HAND_SIZE_WITH_EQUALS_SIGN
            invariant
                i <= 10,
                tiles_selected@ == Seq::new(i as nat, |k: int| false),
            decreases 10 - i,
        {
            tiles_selected.push(false);
            i += 1;
            assert(tiles_selected@ =~= Seq::new(i as nat, |k: int| false));
        }
        Rerolling { tiles_selected }
    }
}

/// What the current player is doing.
pub enum PlayerAction {
    PlacingTiles(PlacingTiles),
    Rerolling(Rerolling),
}

/// The message shown over the game until the next click.
pub enum ActiveGamePopup {
    /// The points of the move, and whether the turn goes to another player.
    Scored(u64, bool),
    /// How many passes in a row there have been.
    Passed(usize),
    /// How many tiles were exchanged, and whether the turn goes to another player.
    Rerolled(usize, bool),
    NotEnoughTilesToReroll,
    NoTilesSelectedToReroll,
    InvalidBoard(InvalidBoard),
}

/// The mathematical content of a popup.
pub enum PopupView {
    Scored(u64, bool),
    Passed(usize),
    Rerolled(usize, bool),
    NotEnoughTilesToReroll,
    NoTilesSelectedToReroll,
    InvalidBoard(InvalidBoardView),
}

impl View for ActiveGamePopup {
    type V = PopupView;

    open spec fn view(&self) -> PopupView {
        match self {
            ActiveGamePopup::Scored(p, m) => PopupView::Scored(*p, *m),
            ActiveGamePopup::Passed(n) => PopupView::Passed(*n),
            ActiveGamePopup::Rerolled(n, m) => PopupView::Rerolled(*n, *m),
            ActiveGamePopup::NotEnoughTilesToReroll => PopupView::NotEnoughTilesToReroll,
            ActiveGamePopup::NoTilesSelectedToReroll => PopupView::NoTilesSelectedToReroll,
            ActiveGamePopup::InvalidBoard(b) => PopupView::InvalidBoard(b@),
        }
    }
}

/// The popup of a state, as its view.
pub open spec fn popup_view(p: Option<ActiveGamePopup>) -> Option<PopupView> {
    match p {
        Some(q) => Some(q@),
        None => None,
    }
}

/// A game being played.
pub struct ActiveGame {
    pub players: Vec<Player>,
    pub player_index: usize,
    pub player_action: PlayerAction,
    pub passes_in_row: usize,
    pub tiles_in_bag: Vec<Tile>,
    pub board: Board,
    pub board_popup: Option<ActiveGamePopup>,
    pub rng: ThreadRng,
}

impl ActiveGame {
    /// The hand of player `i`.
    pub open spec fn hand_of(&self, i: int) -> Seq<Tile> {
        self.players@[i].hand@
    }

    /// The hand of the current player.
    pub open spec fn cur_hand(&self) -> Seq<Tile> {
        self.hand_of(self.player_index as int)
    }

    /// The tiles in the hand of the current player.
    pub open spec fn cur_hand_tiles(&self) -> Multiset<Tile> {
        self.cur_hand().to_multiset()
    }

    /// The current player is placing tiles.
    pub open spec fn placing(&self) -> bool {
        self.player_action is PlacingTiles
    }

    /// The current player is choosing tiles to exchange.
    pub open spec fn rerolling(&self) -> bool {
        self.player_action is Rerolling
    }

    /// Which tiles are chosen to be exchanged (empty while placing).
    pub open spec fn selected(&self) -> Seq<bool> {
        match self.player_action {
            PlayerAction::Rerolling(r) => r.tiles_selected@,
            _ => Seq::empty(),
        }
    }

    /// The tile being dragged, if any.
    pub open spec fn in_move(&self) -> Option<Tile> {
        match self.player_action {
            PlayerAction::PlacingTiles(p) => p.tile_in_move,
            _ => None,
        }
    }

    /// The players' names and scores.
    pub open spec fn results(&self) -> Seq<(Seq<char>, u64)> {
        Seq::new(self.players@.len(), |i: int| (self.players@[i].name@, self.players@[i].score))
    }

    /// Every player but `i` is unchanged, and player `i` keeps name and score.
    pub open spec fn others_unchanged(&self, other: &ActiveGame, i: int) -> bool {
        &&& self.players@.len() == other.players@.len()
        &&& forall|k: int| 0 <= k < self.players@.len() && k != i ==> #[trigger] self.players@[k] == other.players@[k]
        &&& self.players@[i].name == other.players@[i].name
        &&& self.players@[i].score == other.players@[i].score
    }
}

impl ActiveGame {
    /// The bag and the hands are what dealing from the shuffled bag `s`
    /// leaves: `s` holds the tiles of a fresh bag.
    pub open spec fn dealt_from(&self, s: Seq<Tile>) -> bool {
        &&& s.to_multiset() == initial_bag().to_multiset()
        &&& s.len() == 96
        &&& self.tiles_in_bag@ == s.take(96 - 9 * self.players@.len())
        &&& forall|i: int| 0 <= i < self.players@.len() ==> #[trigger] self.hand_of(i) == dealt_hand(s, i)
    }
}

/// The hands dealt from a shuffled bag: player `i` takes the last nine
/// tiles left in the bag and the equals sign.
pub open spec fn dealt_hand(shuffled: Seq<Tile>, i: int) -> Seq<Tile> {
    shuffled.subrange(96 - 9 * (i + 1), 96 - 9 * i).push(Tile::EqualsSign)
}

impl ActiveGame {
    /// A new game: the bag is shuffled, then every player in turn takes nine
    /// tiles from the end of the bag, and an equals sign.
    pub fn new(player_names: Vec<String>) -> (g: ActiveGame)
        requires
            player_names@.len() <= 10,
        ensures
            g.players@.len() == player_names@.len(),
            forall|i: int| 0 <= i < player_names@.len() ==> (#[trigger] g.players@[i]).name == player_names@[i]
                && g.players@[i].score == 0,
            exists|s: Seq<Tile>| #[trigger] g.dealt_from(s),
            g.player_index == 0,
            g.placing(),
            g.in_move() is None,
            g.passes_in_row == 0,
            g.board.wf(),
            forall|x: int, y: int| in_board(x, y) ==> #[trigger] g.board.cell(x, y) is None,
            forall|x: int, y: int|
                in_board(x, y) ==> #[trigger] g.board.field(x, y) == crate::board::initial_field(x, y),
            g.board_popup is None,
            player_names@.len() >= 1 ==> g.wf() && g.one_equals_each(),
    {
        let mut tiles_in_bag = Tile::initial_bag_of_tiles();
        let mut rng = new_rng();
        shuffle_tiles(&mut tiles_in_bag, &mut rng);
        let ghost s = tiles_in_bag@;
        let mut players: Vec<Player> = Vec::new();
        let mut names = player_names;
        let ghost all_names = names@;
        let mut i: usize = 0;
        while i < names.len()
            invariant
                all_names == names@,
                names@.len() <= 10,
                i <= names@.len(),
                s.len() == 96,
                tiles_in_bag@ == s.take(96 - 9 * i),
                players@.len() == i,
                forall|k: int| 0 <= k < i ==> (#[trigger] players@[k]).name == all_names[k] && players@[k].score == 0
                    && players@[k].hand@ == dealt_hand(s, k),
            decreases names@.len() - i,
        {
            let at = tiles_in_bag.len() - PLAYER_HAND_SIZE_WITHOUT_EQUALS_SIGN;
            let mut hand = tiles_in_bag.split_off(at);
            hand.push(Tile::EqualsSign);
            assert(hand@ =~= dealt_hand(s, i as int));
            assert(tiles_in_bag@ =~= s.take(96 - 9 * (i + 1)));
            let name = names[i].clone();
            players.push(Player { name, hand, score: 0 });
            i += 1;
        }
        let g = ActiveGame {
            players,
            player_index: 0,
            player_action: PlayerAction::PlacingTiles(PlacingTiles::new()),
            passes_in_row: 0,
            tiles_in_bag,
            board: Board::new(),
            board_popup: None,
            rng,
        };
        assert(g.dealt_from(s));
        proof {
            assert forall|x: int, y: int| in_board(x, y) implies !#[trigger] g.board.temporary(x, y) by {
                assert(g.board.cell(x, y) is None);
            }
            g.board.lemma_no_temporary(225);
            assert forall|k: int| 0 <= k < g.players@.len() implies #[trigger] g.hand_of(k).len() <= 10 by {
                assert(g.players@[k].hand@ == dealt_hand(s, k));
            }
            if g.players@.len() >= 1 {
                lemma_wf_intro(g);
                lemma_new_game_one_equals_each(g, s);
            }
        }
        g
    }

    /// The results of all players (unsorted) once the game is finished:
    /// when every player has passed in a row.
    pub fn check_finish(&self) -> (res: Option<Vec<(String, u64)>>)
        ensures
            self.passes_in_row < self.players@.len() ==> res is None,
            self.passes_in_row >= self.players@.len() ==> (res matches Some(v) && Seq::new(
                v@.len(),
                |i: int| (v@[i].0@, v@[i].1),
            ) == self.results()),
    {
        if self.passes_in_row >= self.players.len() {
            let mut v: Vec<(String, u64)> = Vec::new();
            let mut i: usize = 0;
            while i < self.players.len()
                invariant
                    i <= self.players@.len(),
                    v@.len() == i,
                    forall|k: int|
                        0 <= k < i ==> (#[trigger] v@[k]).0@ == self.players@[k].name@ && v@[k].1
                            == self.players@[k].score,
                decreases self.players@.len() - i,
            {
                v.push((self.players[i].name.clone(), self.players[i].score));
                i += 1;
            }
            assert(Seq::new(v@.len(), |i: int| (v@[i].0@, v@[i].1)) =~= self.results());
            Some(v)
        } else {
            None
        }
    }

    /// Whether the turn goes to another player: there is more than one
    /// player and the popup announces the end of a turn.
    pub fn switching_players(&self) -> (res: bool)
        ensures
            res == (self.players@.len() > 1 && (match self.board_popup {
                Some(ActiveGamePopup::Passed(_)) => true,
                Some(ActiveGamePopup::Rerolled(_, _)) => true,
                Some(ActiveGamePopup::Scored(_, _)) => true,
                _ => false,
            })),
    {
        self.players.len() > 1 && match self.board_popup {
            Some(ActiveGamePopup::Passed(_)) => true,
            Some(ActiveGamePopup::Rerolled(_, _)) => true,
            Some(ActiveGamePopup::Scored(_, _)) => true,
            _ => false,
        }
    }
}

impl ActiveGame {
    /// `new` is what picking up the `x`-th tile of the hand makes of
    /// `self`: allowed while placing tiles with none in move.
    pub open spec fn after_pick_up_from_hand(&self, x: int, new: &ActiveGame) -> bool {
        if self.placing() && self.in_move() is None {
            &&& new.placing()
            &&& new.in_move() == Some(self.cur_hand()[x])
            &&& new.cur_hand() == self.cur_hand().remove(x)
            &&& new.others_unchanged(self, self.player_index as int)
            &&& new.same_table(self)
        } else {
            *new == *self
        }
    }

    /// `new` is what picking up the tile on square `(x, y)` makes of
    /// `self`: allowed while placing tiles with none in move, for a
    /// temporary tile.
    pub open spec fn after_pick_up_from_board(&self, x: int, y: int, new: &ActiveGame) -> bool {
        if self.placing() && self.in_move() is None && self.board.temporary(x, y) {
            &&& new.placing()
            &&& new.in_move() == Some(self.board.cell(x, y).unwrap().content)
            &&& new.board.is_update_of(self.board, x, y, None)
            &&& new.players == self.players
            &&& new.player_index == self.player_index
            &&& new.passes_in_row == self.passes_in_row
            &&& new.tiles_in_bag == self.tiles_in_bag
            &&& new.board_popup == self.board_popup
            &&& new.rng == self.rng
        } else {
            *new == *self
        }
    }

    /// `new` is what dropping the tile in move into the hand makes of `self`.
    pub open spec fn after_put_to_hand(&self, new: &ActiveGame) -> bool {
        match self.in_move() {
            Some(t) => {
                &&& new.placing()
                &&& new.in_move() is None
                &&& new.cur_hand() == self.cur_hand().push(t)
                &&& new.others_unchanged(self, self.player_index as int)
                &&& new.same_table(self)
            },
            None => *new == *self,
        }
    }

    /// `new` is what dropping the tile in move on square `(x, y)` makes of
    /// `self`: allowed on an empty square, where the tile lies temporary.
    pub open spec fn after_put_on_board(&self, x: int, y: int, new: &ActiveGame) -> bool {
        if self.in_move() is Some && self.board.cell(x, y) is None {
            &&& new.placing()
            &&& new.in_move() is None
            &&& new.board.is_update_of(
                self.board,
                x,
                y,
                Some(TileOnBoard { content: self.in_move().unwrap(), status: TileStatus::Temporary }),
            )
            &&& new.players == self.players
            &&& new.player_index == self.player_index
            &&& new.passes_in_row == self.passes_in_row
            &&& new.tiles_in_bag == self.tiles_in_bag
            &&& new.board_popup == self.board_popup
            &&& new.rng == self.rng
        } else {
            *new == *self
        }
    }

    /// `new` is what taking back the tile on square `(x, y)` makes of
    /// `self`: a temporary tile goes back to the current player's hand.
    pub open spec fn after_pop_tile(&self, x: int, y: int, new: &ActiveGame) -> bool {
        if self.board.temporary(x, y) {
            &&& new.cur_hand() == self.cur_hand().push(self.board.cell(x, y).unwrap().content)
            &&& new.others_unchanged(self, self.player_index as int)
            &&& new.board.is_update_of(self.board, x, y, None)
            &&& new.player_index == self.player_index
            &&& new.passes_in_row == self.passes_in_row
            &&& new.tiles_in_bag == self.tiles_in_bag
            &&& new.board_popup == self.board_popup
            &&& new.player_action == self.player_action
            &&& new.rng == self.rng
        } else {
            *new == *self
        }
    }

    /// `new` is what taking back every temporary tile makes of `self`: they
    /// go to the end of the current player's hand in row-major order.
    pub open spec fn after_pop_all(&self, new: &ActiveGame) -> bool {
        &&& new.board.wf()
        &&& new.board.board == self.board.board
        &&& forall|x: int, y: int| in_board(x, y) ==> #[trigger] new.board.cell(x, y) == without_temporary(self.board.cell(x, y))
        &&& self.board.temp_contents().len() > 0 ==> {
            &&& new.cur_hand() == self.cur_hand() + self.board.temp_contents()
            &&& new.others_unchanged(self, self.player_index as int)
        }
        &&& self.board.temp_contents().len() == 0 ==> new.players == self.players
        &&& new.player_index == self.player_index
        &&& new.passes_in_row == self.passes_in_row
        &&& new.tiles_in_bag == self.tiles_in_bag
        &&& new.board_popup == self.board_popup
        &&& new.player_action == self.player_action
        &&& new.rng == self.rng
    }

    /// `new` is what clicking the `pos`-th tile of the hand while choosing
    /// tiles to exchange makes of `self`: the choice of that tile flips,
    /// unless it is the (first) equals sign.
    pub open spec fn after_select(&self, pos: int, new: &ActiveGame) -> bool {
        &&& if self.rerolling() && pos != equals_indices(self.cur_hand())[0] {
            new.rerolling() && new.selected() == self.selected().update(pos, !self.selected()[pos])
        } else {
            new.player_action == self.player_action
        }
        &&& new.players == self.players
        &&& new.same_table(self)
    }
}

impl ActiveGame {
    /// Everything but the players and the action is as in `other`.
    pub open spec fn same_table(&self, other: &ActiveGame) -> bool {
        &&& self.player_index == other.player_index
        &&& self.passes_in_row == other.passes_in_row
        &&& self.tiles_in_bag == other.tiles_in_bag
        &&& self.board == other.board
        &&& self.board_popup == other.board_popup
        &&& self.rng == other.rng
    }

    /// Picks up the `x`-th tile of the current player's hand, if the player
    /// is placing tiles and drags none yet.
    pub fn pick_up_tile_from_hand(&mut self, x: usize) -> (res: bool)
        requires
            old(self).player_index < old(self).players@.len(),
            x < old(self).cur_hand().len(),
        ensures
            res == (old(self).placing() && old(self).in_move() is None),
            old(self).after_pick_up_from_hand(x as int, &*final(self)),
    {
        let idx = self.player_index;
        let tile = self.players[idx].hand[x];
        let ok = match &self.player_action {
            PlayerAction::PlacingTiles(action) => action.tile_in_move.is_none(),
            PlayerAction::Rerolling(_) => false,
        };
        if ok {
            self.player_action = PlayerAction::PlacingTiles(PlacingTiles { tile_in_move: Some(tile) });
            self.players[idx].hand.remove(x);
            return true;
        }
        false
    }

    /// Picks up a temporary tile from square `(x, y)`, if the player is
    /// placing tiles and drags none yet.
    pub fn pick_up_tile_from_board(&mut self, x: usize, y: usize) -> (res: bool)
        requires
            old(self).board.wf(),
            x < 15,
            y < 15,
        ensures
            res == (old(self).placing() && old(self).in_move() is None && old(self).board.temporary(x as int, y as int)),
            old(self).after_pick_up_from_board(x as int, y as int, &*final(self)),
    {
        let can_pick = match &self.player_action {
            PlayerAction::PlacingTiles(action) => action.tile_in_move.is_none(),
            PlayerAction::Rerolling(_) => false,
        };
        if can_pick {
            if let Some(tile) = self.board.letters[x][y] {
                if tile.status() == TileStatus::Temporary {
                    self.board.letters[x][y] = None;
                    self.player_action = PlayerAction::PlacingTiles(PlacingTiles { tile_in_move: Some(tile.content()) });
                    return true;
                }
            }
        }
        false
    }
}

impl ActiveGame {
    /// Drops the dragged tile back into the current player's hand.
    pub fn put_tile_to_hand(&mut self)
        requires
            old(self).in_move() is Some ==> old(self).player_index < old(self).players@.len(),
        ensures
            old(self).after_put_to_hand(&*final(self)),
    {
        let tile = match &self.player_action {
            PlayerAction::PlacingTiles(action) => action.tile_in_move,
            PlayerAction::Rerolling(_) => None,
        };
        if let Some(tile) = tile {
            self.player_action = PlayerAction::PlacingTiles(PlacingTiles { tile_in_move: None });
            let idx = self.player_index;
            self.players[idx].hand.push(tile);
        }
    }

    /// Drops the dragged tile on square `(x, y)` as a temporary tile, if the
    /// square is empty. Returns whether the tile was put down.
    pub fn put_tile_on_board(&mut self, x: usize, y: usize) -> (res: bool)
        requires
            old(self).board.wf(),
            x < 15,
            y < 15,
        ensures
            res == (old(self).in_move() is Some && old(self).board.cell(x as int, y as int) is None),
            old(self).after_put_on_board(x as int, y as int, &*final(self)),
    {
        let tile = match &self.player_action {
            PlayerAction::PlacingTiles(action) => action.tile_in_move,
            PlayerAction::Rerolling(_) => None,
        };
        if let Some(tile) = tile {
            if self.board.letters[x][y].is_none() {
                self.player_action = PlayerAction::PlacingTiles(PlacingTiles { tile_in_move: None });
                self.board.letters[x][y] = Some(TileOnBoard::new(tile));
                return true;
            }
        }
        false
    }

    /// If square `(x, y)` holds a temporary tile, puts it back in the
    /// current player's hand. Returns whether a tile moved.
    pub fn pop_tile_from_board(&mut self, x: usize, y: usize) -> (res: bool)
        requires
            old(self).board.wf(),
            x < 15,
            y < 15,
            old(self).board.temporary(x as int, y as int) ==> old(self).player_index < old(self).players@.len(),
        ensures
            res == old(self).board.temporary(x as int, y as int),
            old(self).after_pop_tile(x as int, y as int, &*final(self)),
    {
        if let Some(tile_on_board) = self.board.letters[x][y] {
            if tile_on_board.status() == TileStatus::Temporary {
                let idx = self.player_index;
                self.players[idx].hand.push(tile_on_board.content());
                self.board.letters[x][y] = None;
                return true;
            }
        }
        false
    }

    /// Moves all temporary tiles from the board to the current player's hand,
    /// in row-major order.
    pub fn pop_all_tiles_from_board(&mut self)
        requires
            old(self).board.wf(),
            old(self).board.temp_contents().len() > 0 ==> old(self).player_index < old(self).players@.len(),
        ensures
            old(self).after_pop_all(&*final(self)),
    {
        let ghost b0 = self.board;
        let ghost g0 = *self;
        proof {
            b0.lemma_temp_contents_grow(0, 225);
        }
        let mut k: usize = 0;
        while k < 225
            invariant
                k <= 225,
                self.board.wf(),
                b0.wf(),
                self.board.board == b0.board,
                forall|x: int, y: int| in_board(x, y) ==> #[trigger] self.board.cell(x, y) == if x * 15 + y < k {
                    without_temporary(b0.cell(x, y))
                } else {
                    b0.cell(x, y)
                },
                b0.temp_contents_upto(k as int).len() <= b0.temp_contents().len(),
                b0.temp_contents().len() > 0 ==> g0.player_index < g0.players@.len(),
                b0.temp_contents_upto(k as int).len() > 0 ==> {
                    &&& self.cur_hand() == g0.cur_hand() + b0.temp_contents_upto(k as int)
                    &&& self.others_unchanged(&g0, g0.player_index as int)
                },
                b0.temp_contents_upto(k as int).len() == 0 ==> self.players == g0.players,
                self.player_index == g0.player_index,
                self.passes_in_row == g0.passes_in_row,
                self.tiles_in_bag == g0.tiles_in_bag,
                self.board_popup == g0.board_popup,
                self.player_action == g0.player_action,
                self.rng == g0.rng,
            decreases 225 - k,
        {
            let x = k / 15;
            let y = k % 15;
            proof {
                assert(x * 15 + y == k);
                assert(nth_position(k as int) == (x as int, y as int));
                b0.lemma_temp_contents_grow(k as int + 1, 225);
            }
            let ghost prev = *self;
            assert(self.board.cell(x as int, y as int) == b0.cell(x as int, y as int));
            if let Some(tile_on_board) = self.board.letters[x][y] {
                if tile_on_board.status() == TileStatus::Temporary {
                    assert(b0.temporary(x as int, y as int));
                    assert(b0.temp_contents_upto(k + 1) == b0.temp_contents_upto(k as int).push(tile_on_board.content));
                    let idx = self.player_index;
                    self.players[idx].hand.push(tile_on_board.content());
                    self.board.letters[x][y] = None;
                    proof {
                        if b0.temp_contents_upto(k as int).len() == 0 {
                            assert(b0.temp_contents_upto(k as int) =~= Seq::<Tile>::empty());
                        }
                        assert(self.cur_hand() =~= g0.cur_hand() + b0.temp_contents_upto(k + 1));
                    }
                } else {
                    assert(!b0.temporary(x as int, y as int));
                    assert(b0.temp_contents_upto(k + 1) == b0.temp_contents_upto(k as int));
                }
            } else {
                assert(b0.temp_contents_upto(k + 1) == b0.temp_contents_upto(k as int));
            }
            proof {
                assert forall|a: int, b: int| in_board(a, b) implies #[trigger] self.board.cell(a, b) == if a * 15 + b < k + 1 {
                    without_temporary(b0.cell(a, b))
                } else {
                    b0.cell(a, b)
                } by {
                    if a == x && b == y {
                    } else {
                        assert(self.board.cell(a, b) == prev.board.cell(a, b));
                        assert(a * 15 + b != k);
                    }
                }
            }
            k += 1;
        }
        proof {
            assert forall|x: int, y: int| in_board(x, y) implies #[trigger] self.board.cell(x, y) == without_temporary(b0.cell(x, y)) by {
                assert(x * 15 + y < 225);
            }
        }
    }

    /// Toggles whether the `pos`-th tile of the hand is to be exchanged,
    /// unless it is the equals sign (or the player is not choosing tiles).
    pub fn select_tile_in_hand(&mut self, pos: usize)
        requires
            old(self).player_index < old(self).players@.len(),
            old(self).cur_hand().contains(Tile::EqualsSign),
            old(self).rerolling() && pos != equals_indices(old(self).cur_hand())[0] ==> pos < old(self).selected().len(),
        ensures
            old(self).after_select(pos as int, &*final(self)),
    {
        let idx = self.player_index;
        proof {
            lemma_equals_indices(self.cur_hand());
            let w = choose|i: int| 0 <= i < self.cur_hand().len() && self.cur_hand()[i] == Tile::EqualsSign;
            assert(self.cur_hand()[w] is EqualsSign);
        }
        let ghost f = equals_indices(self.cur_hand())[0];
        proof {
            lemma_equals_indices(self.cur_hand());
        }
        let mut equals_index: usize = 0;
        while equals_index < self.players[idx].hand.len()
            invariant
                idx == self.player_index,
                idx < self.players@.len(),
                equals_index <= self.cur_hand().len(),
                forall|j: int| 0 <= j < equals_index ==> !(#[trigger] self.cur_hand()[j] is EqualsSign),
                equals_indices(self.cur_hand()).len() > 0,
                0 <= f < self.cur_hand().len(),
                self.cur_hand()[f] is EqualsSign,
            ensures
                equals_index < self.cur_hand().len(),
                self.cur_hand()[equals_index as int] is EqualsSign,
                forall|j: int| 0 <= j < equals_index ==> !(#[trigger] self.cur_hand()[j] is EqualsSign),
            decreases self.cur_hand().len() - equals_index,
        {
            if let Tile::EqualsSign = self.players[idx].hand[equals_index] {
                break;
            }
            equals_index += 1;
        }
        proof {
            lemma_equals_indices(self.cur_hand());
            let f = equals_indices(self.cur_hand())[0];
            assert(self.cur_hand()[f] is EqualsSign);
            assert(equals_index < self.cur_hand().len());
            assert(self.cur_hand()[equals_index as int] is EqualsSign);
            if (f as int) < (equals_index as int) {
            } else if f > equals_index {
                assert(equals_indices(self.cur_hand()).contains(equals_index as int));
                let k = choose|k: int| 0 <= k < equals_indices(self.cur_hand()).len() && equals_indices(self.cur_hand())[k] == equals_index;
                if k > 0 {
                    assert(equals_indices(self.cur_hand())[0] < equals_indices(self.cur_hand())[k]);
                }
            }
            assert(f == equals_index);
        }
        if pos != equals_index {
            if let PlayerAction::Rerolling(reroll) = &mut self.player_action {
                let v = !reroll.tiles_selected[pos];
                reroll.tiles_selected.set(pos, v);
            }
        }
    }
}

/// The hand with an equals sign added if it has none.
pub open spec fn with_equals(h: Seq<Tile>) -> Seq<Tile> {
    if has_equals(h) {
        h
    } else {
        h.push(Tile::EqualsSign)
    }
}

/// How many tiles refilling takes from the bag.
pub open spec fn refill_count(h: Seq<Tile>, bag: Seq<Tile>) -> int {
    let missing = 10 - with_equals(h).len();
    if missing <= bag.len() {
        missing
    } else {
        bag.len() as int
    }
}

/// A sequence backwards.
pub open spec fn reversed(s: Seq<Tile>) -> Seq<Tile> {
    Seq::new(s.len(), |i: int| s[s.len() - 1 - i])
}

/// The hand after refilling: the equals sign if missing, then tiles popped
/// from the end of the bag until the hand has ten tiles or the bag is empty.
pub open spec fn refilled_hand(h: Seq<Tile>, bag: Seq<Tile>) -> Seq<Tile> {
    with_equals(h) + reversed(bag.subrange(bag.len() - refill_count(h, bag), bag.len() as int))
}

/// The bag after refilling.
pub open spec fn refilled_bag(h: Seq<Tile>, bag: Seq<Tile>) -> Seq<Tile> {
    bag.take(bag.len() - refill_count(h, bag))
}

/// Refilling does not overflow the hand.
pub open spec fn refill_fits(h: Seq<Tile>) -> bool {
    with_equals(h).len() <= 10
}

/// Whether the hand holds the equals sign.
fn hand_has_equals(hand: &Vec<Tile>) -> (res: bool)
    ensures
        res == has_equals(hand@),
{
    let mut i: usize = 0;
    while i < hand.len()
        invariant
            i <= hand@.len(),
            forall|k: int| 0 <= k < i ==> !(#[trigger] hand@[k] is EqualsSign),
        decreases hand@.len() - i,
    {
        if let Tile::EqualsSign = hand[i] {
            return true;
        }
        i += 1;
    }
    false
}

impl ActiveGame {
    /// The index of the player after the current one.
    pub open spec fn next_index(&self) -> usize {
        if self.player_index + 1 == self.players@.len() {
            0
        } else {
            (self.player_index + 1) as usize
        }
    }

    fn refill_current_player_hand(&mut self)
        requires
            old(self).player_index < old(self).players@.len(),
            refill_fits(old(self).cur_hand()),
        ensures
            final(self).cur_hand() == refilled_hand(old(self).cur_hand(), old(self).tiles_in_bag@),
            final(self).tiles_in_bag@ == refilled_bag(old(self).cur_hand(), old(self).tiles_in_bag@),
            final(self).others_unchanged(old(self), old(self).player_index as int),
            final(self).player_index == old(self).player_index,
            final(self).passes_in_row == old(self).passes_in_row,
            final(self).board == old(self).board,
            final(self).board_popup == old(self).board_popup,
            final(self).player_action == old(self).player_action,
            final(self).rng == old(self).rng,
    {
        let idx = self.player_index;
        let ghost h = self.cur_hand();
        let ghost bag = self.tiles_in_bag@;
        if !hand_has_equals(&self.players[idx].hand) {
            self.players[idx].hand.push(Tile::EqualsSign);
        }
        assert(self.cur_hand() == with_equals(h));
        let missing = PLAYER_HAND_SIZE_WITH_EQUALS_SIGN - self.players[idx].hand.len();
        let mut taken: usize = 0;
        while taken < missing
            invariant
                idx == self.player_index,
                idx < self.players@.len(),
                missing == 10 - with_equals(h).len(),
                taken <= missing,
                taken <= bag.len(),
                self.tiles_in_bag@ == bag.take(bag.len() - taken),
                self.cur_hand() == with_equals(h) + reversed(bag.subrange(bag.len() - taken, bag.len() as int)),
                self.others_unchanged(old(self), idx as int),
                self.player_index == old(self).player_index,
                self.passes_in_row == old(self).passes_in_row,
                self.board == old(self).board,
                self.board_popup == old(self).board_popup,
                self.player_action == old(self).player_action,
                self.rng == old(self).rng,
            ensures
                taken == refill_count(h, bag),
                self.tiles_in_bag@ == bag.take(bag.len() - taken),
                self.cur_hand() == with_equals(h) + reversed(bag.subrange(bag.len() - taken, bag.len() as int)),
                self.others_unchanged(old(self), idx as int),
                self.player_index == old(self).player_index,
                self.passes_in_row == old(self).passes_in_row,
                self.board == old(self).board,
                self.board_popup == old(self).board_popup,
                self.player_action == old(self).player_action,
                self.rng == old(self).rng,
            decreases missing - taken,
        {
            match self.tiles_in_bag.pop() {
                Some(tile) => {
                    let ghost before = self.cur_hand();
                    self.players[idx].hand.push(tile);
                    proof {
                        assert(tile == bag[bag.len() - taken - 1]);
                        assert(reversed(bag.subrange(bag.len() - (taken + 1), bag.len() as int)) =~= reversed(
                            bag.subrange(bag.len() - taken, bag.len() as int),
                        ).push(tile));
                        assert(self.tiles_in_bag@ =~= bag.take(bag.len() - (taken + 1)));
                    }
                    taken += 1;
                },
                None => {
                    assert(taken == bag.len());
                    break;
                },
            }
        }
    }

    /// Hands the turn to the next player, who starts placing tiles.
    fn next_player(&mut self)
        requires
            old(self).player_index < old(self).players@.len(),
        ensures
            final(self).player_index == old(self).next_index(),
            final(self).placing(),
            final(self).in_move() is None,
            final(self).players == old(self).players,
            final(self).passes_in_row == old(self).passes_in_row,
            final(self).tiles_in_bag == old(self).tiles_in_bag,
            final(self).board == old(self).board,
            final(self).board_popup == old(self).board_popup,
            final(self).rng == old(self).rng,
    {
        let n = self.players.len();
        self.player_index += 1;
        if self.player_index == n {
            self.player_index = 0;
        }
        self.player_action = PlayerAction::PlacingTiles(PlacingTiles::new());
    }
}

impl ActiveGame {
    /// Everything but the popup is as in `other`.
    pub open spec fn same_but_popup(&self, other: &ActiveGame) -> bool {
        &&& self.players == other.players
        &&& self.player_index == other.player_index
        &&& self.player_action == other.player_action
        &&& self.passes_in_row == other.passes_in_row
        &&& self.tiles_in_bag == other.tiles_in_bag
        &&& self.board == other.board
        &&& self.rng == other.rng
    }

    /// Confirming the move does not panic: checking the board does not
    /// panic, and a scoring move neither overflows the score nor the hand.
    pub open spec fn confirm_safe(&self) -> bool {
        &&& !(self.board.spec_check_move() is Panics)
        &&& (self.board.spec_check_move() matches MoveOutcome::Scored(t) ==> self.players@[self.player_index as int].score
            + t <= u64::MAX && refill_fits(self.cur_hand()))
    }

    /// `new` is what confirming the move makes of `self`. A scoring move
    /// adds its points to the current player, makes the new tiles
    /// permanent, refills the hand and hands the turn on; a refused move
    /// only shows why.
    pub open spec fn after_confirm_move(&self, new: &ActiveGame) -> bool {
        let i = self.player_index as int;
        match self.board.spec_check_move() {
            MoveOutcome::Scored(t) => {
                &&& new.players@.len() == self.players@.len()
                &&& forall|k: int| 0 <= k < self.players@.len() && k != i ==> #[trigger] new.players@[k] == self.players@[k]
                &&& new.players@[i].name == self.players@[i].name
                &&& new.players@[i].score == self.players@[i].score + t
                &&& new.hand_of(i) == refilled_hand(self.cur_hand(), self.tiles_in_bag@)
                &&& new.tiles_in_bag@ == refilled_bag(self.cur_hand(), self.tiles_in_bag@)
                &&& new.board.wf()
                &&& new.board.board == self.board.board
                &&& forall|x: int, y: int| in_board(x, y) ==> #[trigger] new.board.cell(x, y) == made_permanent(self.board.cell(x, y))
                &&& new.player_index == self.next_index()
                &&& new.placing()
                &&& new.in_move() is None
                &&& new.passes_in_row == 0
                &&& new.board_popup == Some(ActiveGamePopup::Scored(t as u64, self.players@.len() > 1))
                &&& new.rng == self.rng
            },
            MoveOutcome::Invalid(e) => {
                &&& new.same_but_popup(self)
                &&& popup_view(new.board_popup) == Some(PopupView::InvalidBoard(e))
            },
            MoveOutcome::Panics => false,
        }
    }

    /// The current player confirms the move: if the board holds a valid
    /// move, its points are added, the hand is refilled and the next player
    /// takes the turn; otherwise the board stays as it is and a popup says
    /// why the move was refused.
    pub fn confirm_move(&mut self)
        requires
            old(self).player_index < old(self).players@.len(),
            old(self).board.wf(),
            old(self).confirm_safe(),
        ensures
            old(self).after_confirm_move(&*final(self)),
    {
        match self.board.verify_and_grade_move() {
            Ok(score) => {
                let idx = self.player_index;
                let s = self.players[idx].score + score;
                self.players[idx].score = s;
                self.refill_current_player_hand();
                self.next_player();
                let many = self.players.len() > 1;
                self.board_popup = Some(ActiveGamePopup::Scored(score, many));
                self.passes_in_row = 0;
            },
            Err(err) => {
                self.board_popup = Some(ActiveGamePopup::InvalidBoard(err));
            },
        }
    }

    /// `new` is what passing the turn makes of `self`: the temporary tiles
    /// go back to the hand, the next player takes the turn and the passes
    /// in a row count one more.
    pub open spec fn after_pass_turn(&self, new: &ActiveGame) -> bool {
        let i = self.player_index as int;
        &&& new.players@.len() == self.players@.len()
        &&& forall|k: int| 0 <= k < self.players@.len() && k != i ==> #[trigger] new.players@[k] == self.players@[k]
        &&& new.players@[i].name == self.players@[i].name
        &&& new.players@[i].score == self.players@[i].score
        &&& new.hand_of(i) == self.cur_hand() + self.board.temp_contents()
        &&& new.board.wf()
        &&& new.board.board == self.board.board
        &&& forall|x: int, y: int| in_board(x, y) ==> #[trigger] new.board.cell(x, y) == without_temporary(self.board.cell(x, y))
        &&& new.player_index == self.next_index()
        &&& new.placing()
        &&& new.in_move() is None
        &&& new.passes_in_row == self.passes_in_row + 1
        &&& new.tiles_in_bag == self.tiles_in_bag
        &&& new.board_popup == if self.players@.len() > 1 {
            Some(ActiveGamePopup::Passed((self.passes_in_row + 1) as usize))
        } else {
            self.board_popup
        }
        &&& new.rng == self.rng
    }

    /// The current player passes the turn.
    pub fn pass_turn(&mut self)
        requires
            old(self).player_index < old(self).players@.len(),
            old(self).board.wf(),
            old(self).passes_in_row < usize::MAX,
        ensures
            old(self).after_pass_turn(&*final(self)),
    {
        let ghost g0 = *self;
        self.pop_all_tiles_from_board();
        proof {
            if g0.board.temp_contents().len() == 0 {
                assert(g0.board.temp_contents() =~= Seq::<Tile>::empty());
                assert(self.cur_hand() =~= g0.cur_hand() + g0.board.temp_contents());
            }
        }
        self.next_player();
        self.passes_in_row += 1;
        if self.players.len() > 1 {
            self.board_popup = Some(ActiveGamePopup::Passed(self.passes_in_row));
        }
    }

    /// `new` is what starting an exchange makes of `self`: with at least
    /// nine tiles in the bag, the temporary tiles go back to the hand and
    /// the player starts choosing tiles; otherwise a popup says that the
    /// bag holds too few tiles.
    pub open spec fn after_init_reroll(&self, new: &ActiveGame) -> bool {
        let i = self.player_index as int;
        if self.tiles_in_bag@.len() >= 9 {
            &&& new.players@.len() == self.players@.len()
            &&& forall|k: int| 0 <= k < self.players@.len() && k != i ==> #[trigger] new.players@[k] == self.players@[k]
            &&& new.players@[i].name == self.players@[i].name
            &&& new.players@[i].score == self.players@[i].score
            &&& new.hand_of(i) == self.cur_hand() + self.board.temp_contents()
            &&& new.board.wf()
            &&& new.board.board == self.board.board
            &&& forall|x: int, y: int| in_board(x, y) ==> #[trigger] new.board.cell(x, y) == without_temporary(self.board.cell(x, y))
            &&& new.player_index == self.player_index
            &&& new.rerolling()
            &&& new.selected() == Seq::new(10, |k: int| false)
            &&& new.passes_in_row == self.passes_in_row
            &&& new.tiles_in_bag == self.tiles_in_bag
            &&& new.board_popup == self.board_popup
            &&& new.rng == self.rng
        } else {
            &&& new.same_but_popup(self)
            &&& new.board_popup == Some(ActiveGamePopup::NotEnoughTilesToReroll)
        }
    }

    /// The current player starts choosing tiles to exchange, which takes
    /// at least nine tiles in the bag.
    pub fn init_reroll(&mut self)
        requires
            old(self).player_index < old(self).players@.len(),
            old(self).board.wf(),
        ensures
            old(self).after_init_reroll(&*final(self)),
    {
        if self.tiles_in_bag.len() >= PLAYER_HAND_SIZE_WITHOUT_EQUALS_SIGN {
            let ghost g0 = *self;
            self.pop_all_tiles_from_board();
            proof {
                if g0.board.temp_contents().len() == 0 {
                    assert(g0.board.temp_contents() =~= Seq::<Tile>::empty());
                    assert(self.cur_hand() =~= g0.cur_hand() + g0.board.temp_contents());
                }
            }
            self.player_action = PlayerAction::Rerolling(Rerolling::new());
        } else {
            self.board_popup = Some(ActiveGamePopup::NotEnoughTilesToReroll);
        }
    }

    /// `new` is what going back to placing tiles makes of `self`.
    pub open spec fn after_cancel_reroll(&self, new: &ActiveGame) -> bool {
        &&& new.placing()
        &&& new.in_move() is None
        &&& new.players == self.players
        &&& new.same_table(self)
    }

    /// The current player goes back to placing tiles.
    pub fn cancel_reroll(&mut self)
        ensures
            old(self).after_cancel_reroll(&*final(self)),
    {
        self.player_action = PlayerAction::PlacingTiles(PlacingTiles::new());
    }
}

/// The tiles kept in an exchange, from position `i` of the hand on: those
/// at positions that are not chosen, in order. Only the first ten
/// positions can be chosen.
pub open spec fn kept_from(h: Seq<Tile>, sel: Seq<bool>, i: int) -> Seq<Tile>
    decreases h.len() - i,
{
    if i < 0 || i >= h.len() {
        Seq::empty()
    } else if i < 10 && sel[i] {
        kept_from(h, sel, i + 1)
    } else {
        seq![h[i]] + kept_from(h, sel, i + 1)
    }
}

/// The tiles that stay in the hand in an exchange.
pub open spec fn kept_hand(h: Seq<Tile>, sel: Seq<bool>) -> Seq<Tile> {
    kept_from(h, sel, 0)
}

/// The tiles given back in an exchange, from position `i` to position
/// nine: those at chosen positions, from the last position down.
pub open spec fn discarded_from(h: Seq<Tile>, sel: Seq<bool>, i: int) -> Seq<Tile>
    decreases 10 - i,
{
    if i < 0 || i >= 10 {
        Seq::empty()
    } else if sel[i] {
        discarded_from(h, sel, i + 1).push(h[i])
    } else {
        discarded_from(h, sel, i + 1)
    }
}

/// The tiles given back to the bag in an exchange.
pub open spec fn discarded(h: Seq<Tile>, sel: Seq<bool>) -> Seq<Tile> {
    discarded_from(h, sel, 0)
}

/// Past position nine nothing is chosen: the rest of the hand is kept.
proof fn lemma_kept_tail(h: Seq<Tile>, sel: Seq<bool>, i: int)
    requires
        10 <= i <= h.len(),
    ensures
        kept_from(h, sel, i) == h.subrange(i, h.len() as int),
    decreases h.len() - i,
{
    if i < h.len() {
        lemma_kept_tail(h, sel, i + 1);
        assert(kept_from(h, sel, i) =~= h.subrange(i, h.len() as int));
    } else {
        assert(h.subrange(i, h.len() as int) =~= Seq::<Tile>::empty());
    }
}

/// Only the first ten choices matter.
proof fn lemma_choice_prefix(h: Seq<Tile>, sel: Seq<bool>, i: int)
    requires
        sel.len() >= 10,
        0 <= i,
    ensures
        kept_from(h, sel, i) == kept_from(h, sel.take(10), i),
        discarded_from(h, sel, i) == discarded_from(h, sel.take(10), i),
    decreases (if h.len() > 10 { h.len() as int } else { 10 }) - i,
{
    if i < h.len() || i < 10 {
        lemma_choice_prefix(h, sel, i + 1);
    }
}

impl ActiveGame {
    /// Confirming the exchange does not panic: the choices cover the first
    /// ten positions, every chosen position holds a tile, and refilling the
    /// kept tiles does not overflow the hand.
    pub open spec fn reroll_safe(&self) -> bool {
        let h = self.cur_hand();
        let sel = self.selected();
        self.rerolling() ==> {
            &&& sel.len() >= 10
            &&& forall|i: int| 0 <= i < 10 && #[trigger] sel[i] ==> i < h.len()
            &&& discarded(h, sel).len() > 0 ==> refill_fits(kept_hand(h, sel))
        }
    }

    /// `new` is what confirming the exchange makes of `self`. Without a
    /// chosen tile a popup asks for one; otherwise the chosen tiles leave
    /// the hand, the hand is refilled from the bag, the chosen tiles go into
    /// the bag, which is shuffled, and the next player takes the turn.
    pub open spec fn after_confirm_reroll(&self, new: &ActiveGame) -> bool {
        let i = self.player_index as int;
        let h = self.cur_hand();
        let sel = self.selected();
        let d = discarded(h, sel);
        let k = kept_hand(h, sel);
        if !self.rerolling() {
            *new == *self
        } else if d.len() == 0 {
            &&& new.same_but_popup(self)
            &&& new.board_popup == Some(ActiveGamePopup::NoTilesSelectedToReroll)
        } else {
            &&& new.players@.len() == self.players@.len()
            &&& forall|j: int| 0 <= j < self.players@.len() && j != i ==> #[trigger] new.players@[j] == self.players@[j]
            &&& new.players@[i].name == self.players@[i].name
            &&& new.players@[i].score == self.players@[i].score
            &&& new.hand_of(i) == refilled_hand(k, self.tiles_in_bag@)
            &&& new.tiles_in_bag@.to_multiset() == (refilled_bag(k, self.tiles_in_bag@) + d).to_multiset()
            &&& new.board == self.board
            &&& new.player_index == self.next_index()
            &&& new.placing()
            &&& new.in_move() is None
            &&& new.passes_in_row == 0
            &&& new.board_popup == Some(ActiveGamePopup::Rerolled(d.len() as usize, self.players@.len() > 1))
        }
    }

    /// The first ten choices of the exchange being prepared.
    fn selection(&self) -> (v: Vec<bool>)
        requires
            self.rerolling() ==> self.selected().len() >= 10,
        ensures
            self.rerolling() ==> v@ == self.selected().take(10),
    {
        let mut v: Vec<bool> = Vec::new();
        let mut i: usize = 0;
        while i < PLAYER_HAND_SIZE_WITH_EQUALS_SIGN
            invariant
                i <= 10,
                self.rerolling() ==> self.selected().len() >= 10,
                self.rerolling() ==> v@ == self.selected().take(i as int),
            decreases 10 - i,
        {
            let b = match &self.player_action {
                PlayerAction::Rerolling(r) => r.tiles_selected[i],
                PlayerAction::PlacingTiles(_) => false,
            };
            v.push(b);
            i += 1;
            proof {
                if self.rerolling() {
                    assert(v@ =~= self.selected().take(i as int));
                }
            }
        }
        v
    }

    /// The current player confirms the exchange of the chosen tiles.
    pub fn confirm_reroll(&mut self)
        requires
            old(self).player_index < old(self).players@.len(),
            old(self).reroll_safe(),
        ensures
            old(self).after_confirm_reroll(&*final(self)),
    {
        let is_rerolling = match &self.player_action {
            PlayerAction::Rerolling(_) => true,
            PlayerAction::PlacingTiles(_) => false,
        };
        if !is_rerolling {
            return;
        }
        let ghost g0 = *self;
        let ghost h = self.cur_hand();
        let sel = self.selection();
        proof {
            lemma_choice_prefix(h, g0.selected(), 0);
        }
        // Count the chosen tiles, from the last position down.
        let mut l: usize = 0;
        let mut i: usize = PLAYER_HAND_SIZE_WITH_EQUALS_SIGN;
        while i > 0
            invariant
                i <= 10,
                sel@.len() == 10,
                l == discarded_from(h, sel@, i as int).len(),
                l <= 10 - i,
            decreases i,
        {
            if sel[i - 1] {
                l += 1;
            }
            i -= 1;
        }
        if l == 0 {
            self.board_popup = Some(ActiveGamePopup::NoTilesSelectedToReroll);
            return;
        }
        // Take the chosen tiles out of the hand, from the last position
        // down, so that the positions still to come do not move.
        let idx = self.player_index;
        let mut discarded_tiles: Vec<Tile> = Vec::new();
        proof {
            if h.len() > 10 {
                lemma_kept_tail(h, sel@, 10);
                assert(h =~= h.take(10) + h.subrange(10, h.len() as int));
            } else {
                assert(h.take(h.len() as int) =~= h);
                assert(kept_from(h, sel@, 10) =~= Seq::<Tile>::empty());
            }
        }
        let mut i: usize = PLAYER_HAND_SIZE_WITH_EQUALS_SIGN;
        while i > 0
            invariant
                idx == self.player_index,
                idx < self.players@.len(),
                i <= 10,
                sel@.len() == 10,
                sel@ == g0.selected().take(10),
                g0.selected().len() >= 10,
                h == g0.cur_hand(),
                forall|j: int| 0 <= j < 10 && #[trigger] g0.selected()[j] ==> j < h.len(),
                self.cur_hand() == h.take(if i <= h.len() { i as int } else { h.len() as int }) + kept_from(h, sel@, i as int),
                discarded_tiles@ == discarded_from(h, sel@, i as int),
                self.players@.len() == g0.players@.len(),
                forall|j: int| 0 <= j < g0.players@.len() && j != idx ==> #[trigger] self.players@[j] == g0.players@[j],
                self.players@[idx as int].name == g0.players@[idx as int].name,
                self.players@[idx as int].score == g0.players@[idx as int].score,
                self.same_table(&g0),
                self.player_action == g0.player_action,
            decreases i,
        {
            let p = i - 1;
            if sel[p] {
                assert(g0.selected()[p as int]);
                let ghost before = self.cur_hand();
                let tile = self.players[idx].hand.remove(p);
                proof {
                    assert(before[p as int] == h[p as int]);
                    assert(self.cur_hand() =~= h.take(p as int) + kept_from(h, sel@, p as int));
                }
                discarded_tiles.push(tile);
            } else {
                proof {
                    if p < h.len() {
                        assert(h.take(p + 1) =~= h.take(p as int) + seq![h[p as int]]);
                        assert(self.cur_hand() =~= h.take(p as int) + kept_from(h, sel@, p as int));
                    }
                }
            }
            i = p;
        }
        proof {
            assert(h.take(0) =~= Seq::<Tile>::empty());
            assert(self.cur_hand() =~= kept_hand(h, sel@));
        }
        self.refill_current_player_hand();
        self.tiles_in_bag.append(&mut discarded_tiles);
        shuffle_tiles(&mut self.tiles_in_bag, &mut self.rng);
        self.next_player();
        let many = self.players.len() > 1;
        self.board_popup = Some(ActiveGamePopup::Rerolled(l, many));
        self.passes_in_row = 0;
    }
}

impl ActiveGame {
    /// One for a tile in move, else zero.
    pub open spec fn in_move_count(&self) -> int {
        if self.in_move() is Some {
            1
        } else {
            0
        }
    }

    /// The state a game keeps: at least one player, the current one among
    /// them, a well-formed board, ten choices while choosing tiles to
    /// exchange (with no tile of a move on the board, and the equals sign of
    /// the hand never chosen), and no player with more than ten tiles,
    /// counting for the current player the tiles of the move on the board
    /// and the tile in move.
    pub open spec fn wf(&self) -> bool {
        &&& self.players@.len() >= 1
        &&& self.player_index < self.players@.len()
        &&& self.board.wf()
        &&& self.rerolling() ==> self.selected().len() == 10 && self.board.temp_contents().len() == 0
        &&& self.rerolling() && has_equals(self.cur_hand()) ==> !self.selected()[equals_indices(self.cur_hand())[0]]
        &&& forall|k: int| 0 <= k < self.players@.len() && k != self.player_index ==> #[trigger] self.hand_of(k).len() <= 10
        &&& self.cur_hand().len() + self.board.temp_contents().len() + self.in_move_count() <= 10
    }
}

/// In a well-formed game no hand holds more than ten tiles.
proof fn lemma_hands_bounded(g: ActiveGame)
    requires
        g.wf(),
    ensures
        forall|k: int| 0 <= k < g.players@.len() ==> #[trigger] g.hand_of(k).len() <= 10,
{
    assert forall|k: int| 0 <= k < g.players@.len() implies #[trigger] g.hand_of(k).len() <= 10 by {
        if k != g.player_index {
            assert(g.hand_of(k).len() <= 10);
        }
    }
}

/// Where only player `i` changed, and their hand holds at most ten tiles,
/// no hand holds more than ten tiles.
proof fn lemma_hands_bounded_after(g: ActiveGame, new: ActiveGame, i: int)
    requires
        g.wf(),
        0 <= i < g.players@.len(),
        new.players@.len() == g.players@.len(),
        forall|k: int| 0 <= k < g.players@.len() && k != i ==> #[trigger] new.players@[k] == g.players@[k],
        new.hand_of(i).len() <= 10,
    ensures
        forall|k: int| 0 <= k < new.players@.len() ==> #[trigger] new.hand_of(k).len() <= 10,
{
    lemma_hands_bounded(g);
    assert forall|k: int| 0 <= k < new.players@.len() implies #[trigger] new.hand_of(k).len() <= 10 by {
        if k != i {
            assert(new.players@[k] == g.players@[k]);
            assert(g.hand_of(k).len() <= 10);
        }
    }
}

/// With the same players, no hand holds more than ten tiles.
proof fn lemma_hands_bounded_same(g: ActiveGame, new: ActiveGame)
    requires
        g.wf(),
        new.players == g.players,
    ensures
        forall|k: int| 0 <= k < new.players@.len() ==> #[trigger] new.hand_of(k).len() <= 10,
{
    lemma_hands_bounded(g);
    assert forall|k: int| 0 <= k < new.players@.len() implies #[trigger] new.hand_of(k).len() <= 10 by {
        assert(new.players@[k] == g.players@[k]);
        assert(g.hand_of(k).len() <= 10);
    }
}

/// The parts of a well-formed game.
proof fn lemma_wf_intro(new: ActiveGame)
    requires
        new.players@.len() >= 1,
        new.player_index < new.players@.len(),
        new.board.wf(),
        new.rerolling() ==> new.selected().len() == 10 && new.board.temp_contents().len() == 0,
        new.rerolling() && has_equals(new.cur_hand()) ==> !new.selected()[equals_indices(new.cur_hand())[0]],
        forall|k: int| 0 <= k < new.players@.len() ==> #[trigger] new.hand_of(k).len() <= 10,
        new.cur_hand().len() + new.board.temp_contents().len() + new.in_move_count() <= 10,
    ensures
        new.wf(),
{
}

/// Refilling gives at most ten tiles: the hand with its equals sign, and
/// as many tiles from the bag as are missing or left.
pub proof fn lemma_refilled_len(h: Seq<Tile>, bag: Seq<Tile>)
    requires
        refill_fits(h),
    ensures
        0 <= refill_count(h, bag) <= bag.len(),
        refilled_hand(h, bag).len() == with_equals(h).len() + refill_count(h, bag),
        refilled_hand(h, bag).len() <= 10,
        refilled_bag(h, bag).len() == bag.len() - refill_count(h, bag),
{
}

/// Picking up a tile from the hand keeps a game well formed.
pub proof fn lemma_pick_up_from_hand_keeps_wf(g: ActiveGame, x: int, new: ActiveGame)
    requires
        g.wf(),
        0 <= x < g.cur_hand().len(),
        g.after_pick_up_from_hand(x, &new),
    ensures
        new.wf(),
{
    if g.placing() && g.in_move() is None {
        lemma_hands_bounded_after(g, new, g.player_index as int);
        lemma_wf_intro(new);
    }
}

/// Picking up a tile from the board keeps a game well formed.
pub proof fn lemma_pick_up_from_board_keeps_wf(g: ActiveGame, x: int, y: int, new: ActiveGame)
    requires
        g.wf(),
        in_board(x, y),
        g.after_pick_up_from_board(x, y, &new),
    ensures
        new.wf(),
{
    if g.placing() && g.in_move() is None && g.board.temporary(x, y) {
        new.board.lemma_update_temp_len(g.board, x, y, None, 225);
        assert(x * 15 + y < 225);
        assert(new.board.temp_contents().len() + 1 == g.board.temp_contents().len());
        lemma_hands_bounded_same(g, new);
        lemma_wf_intro(new);
    }
}

/// Dropping the tile in move into the hand keeps a game well formed.
pub proof fn lemma_put_to_hand_keeps_wf(g: ActiveGame, new: ActiveGame)
    requires
        g.wf(),
        g.after_put_to_hand(&new),
    ensures
        new.wf(),
{
    if g.in_move() is Some {
        lemma_hands_bounded_after(g, new, g.player_index as int);
        lemma_wf_intro(new);
    }
}

/// Dropping the tile in move on the board keeps a game well formed.
pub proof fn lemma_put_on_board_keeps_wf(g: ActiveGame, x: int, y: int, new: ActiveGame)
    requires
        g.wf(),
        in_board(x, y),
        g.after_put_on_board(x, y, &new),
    ensures
        new.wf(),
{
    if g.in_move() is Some && g.board.cell(x, y) is None {
        let t = TileOnBoard { content: g.in_move().unwrap(), status: TileStatus::Temporary };
        new.board.lemma_update_temp_len(g.board, x, y, Some(t), 225);
        assert(x * 15 + y < 225);
        assert(new.board.temporary(x, y));
        assert(!g.board.temporary(x, y));
        assert(new.board.temp_contents().len() == g.board.temp_contents().len() + 1);
        lemma_hands_bounded_same(g, new);
        lemma_wf_intro(new);
    }
}

/// Taking back one temporary tile keeps a game well formed.
pub proof fn lemma_pop_tile_keeps_wf(g: ActiveGame, x: int, y: int, new: ActiveGame)
    requires
        g.wf(),
        in_board(x, y),
        g.after_pop_tile(x, y, &new),
    ensures
        new.wf(),
{
    if g.board.temporary(x, y) {
        new.board.lemma_update_temp_len(g.board, x, y, None, 225);
        assert(x * 15 + y < 225);
        assert(new.board.temp_contents().len() + 1 == g.board.temp_contents().len());
        lemma_hands_bounded_after(g, new, g.player_index as int);
        lemma_wf_intro(new);
    }
}

/// Taking back every temporary tile keeps a game well formed.
pub proof fn lemma_pop_all_keeps_wf(g: ActiveGame, new: ActiveGame)
    requires
        g.wf(),
        g.after_pop_all(&new),
    ensures
        new.wf(),
        new.board.temp_contents().len() == 0,
{
    assert forall|x: int, y: int| in_board(x, y) implies !#[trigger] new.board.temporary(x, y) by {
        assert(new.board.cell(x, y) == without_temporary(g.board.cell(x, y)));
    }
    new.board.lemma_no_temporary(225);
    if g.board.temp_contents().len() > 0 {
        lemma_hands_bounded_after(g, new, g.player_index as int);
    } else {
        lemma_hands_bounded_same(g, new);
    }
    lemma_wf_intro(new);
}

/// Choosing a tile to exchange keeps a game well formed.
pub proof fn lemma_select_keeps_wf(g: ActiveGame, pos: int, new: ActiveGame)
    requires
        g.wf(),
        0 <= pos < 10,
        g.after_select(pos, &new),
    ensures
        new.wf(),
{
    lemma_hands_bounded_same(g, new);
    lemma_equals_indices(g.cur_hand());
    lemma_wf_intro(new);
}

/// Confirming a move keeps a game well formed.
pub proof fn lemma_confirm_move_keeps_wf(g: ActiveGame, new: ActiveGame)
    requires
        g.wf(),
        g.confirm_safe(),
        g.after_confirm_move(&new),
    ensures
        new.wf(),
{
    if g.board.spec_check_move() is Scored {
        lemma_refilled_len(g.cur_hand(), g.tiles_in_bag@);
        assert forall|x: int, y: int| in_board(x, y) implies !#[trigger] new.board.temporary(x, y) by {
            assert(new.board.cell(x, y) == made_permanent(g.board.cell(x, y)));
        }
        new.board.lemma_no_temporary(225);
        lemma_hands_bounded_after(g, new, g.player_index as int);
        assert(new.cur_hand().len() <= 10);
        lemma_wf_intro(new);
    } else {
        lemma_hands_bounded_same(g, new);
        lemma_wf_intro(new);
    }
}

/// Passing the turn keeps a game well formed.
pub proof fn lemma_pass_turn_keeps_wf(g: ActiveGame, new: ActiveGame)
    requires
        g.wf(),
        g.after_pass_turn(&new),
    ensures
        new.wf(),
{
    assert forall|x: int, y: int| in_board(x, y) implies !#[trigger] new.board.temporary(x, y) by {
        assert(new.board.cell(x, y) == without_temporary(g.board.cell(x, y)));
    }
    new.board.lemma_no_temporary(225);
    lemma_hands_bounded_after(g, new, g.player_index as int);
    assert(new.cur_hand().len() <= 10);
    lemma_wf_intro(new);
}

/// Starting an exchange keeps a game well formed.
pub proof fn lemma_init_reroll_keeps_wf(g: ActiveGame, new: ActiveGame)
    requires
        g.wf(),
        g.after_init_reroll(&new),
    ensures
        new.wf(),
{
    if g.tiles_in_bag@.len() >= 9 {
        assert forall|x: int, y: int| in_board(x, y) implies !#[trigger] new.board.temporary(x, y) by {
            assert(new.board.cell(x, y) == without_temporary(g.board.cell(x, y)));
        }
        new.board.lemma_no_temporary(225);
        lemma_hands_bounded_after(g, new, g.player_index as int);
        lemma_equals_indices(new.cur_hand());
        if has_equals(new.cur_hand()) {
            assert(new.selected()[equals_indices(new.cur_hand())[0]] == false);
        }
        lemma_wf_intro(new);
    } else {
        lemma_hands_bounded_same(g, new);
        lemma_wf_intro(new);
    }
}

/// Going back to placing tiles keeps a game well formed.
pub proof fn lemma_cancel_reroll_keeps_wf(g: ActiveGame, new: ActiveGame)
    requires
        g.wf(),
        g.after_cancel_reroll(&new),
    ensures
        new.wf(),
{
    lemma_hands_bounded_same(g, new);
    lemma_wf_intro(new);
}

/// Confirming an exchange keeps a game well formed.
pub proof fn lemma_confirm_reroll_keeps_wf(g: ActiveGame, new: ActiveGame)
    requires
        g.wf(),
        g.reroll_safe(),
        g.after_confirm_reroll(&new),
    ensures
        new.wf(),
{
    let h = g.cur_hand();
    let sel = g.selected();
    if g.rerolling() && discarded(h, sel).len() > 0 {
        lemma_refilled_len(kept_hand(h, sel), g.tiles_in_bag@);
        lemma_hands_bounded_after(g, new, g.player_index as int);
        assert(new.cur_hand().len() <= 10);
        lemma_wf_intro(new);
    } else if g.rerolling() {
        lemma_hands_bounded_same(g, new);
        lemma_wf_intro(new);
    }
}

/// Where a click lands, as found from the pointer's position: the board
/// square under it, the column of the hand row under it (not yet checked
/// against the number of tiles in hand), and the row of the button column
/// under it.
#[derive(Clone, Copy, Debug)]
pub struct ClickTarget {
    pub board_cell: Option<(usize, usize)>,
    pub hand_column: Option<usize>,
    pub button_row: Option<usize>,
}

/// A board square of a click lies on the board.
pub open spec fn cell_valid(c: Option<(usize, usize)>) -> bool {
    c matches Some(p) ==> p.0 < 15 && p.1 < 15
}

/// What pressing the mouse button does in a game.
#[derive(Clone, Copy, PartialEq, Eq, Debug, Structural)]
pub enum ClickEffect {
    ClosePopup,
    Nothing,
    PickFromBoard(usize, usize),
    PickFromHand(usize),
    Select(usize),
    Press(ControlButton),
}

impl ActiveGame {
    /// The button in row `row` of the button column: three while placing
    /// tiles, two while choosing tiles to exchange.
    pub open spec fn spec_button_at(&self, row: Option<usize>) -> Option<ControlButton> {
        match row {
            Some(r) => if self.placing() {
                if r == 0 {
                    Some(ControlButton::ConfirmMove)
                } else if r == 1 {
                    Some(ControlButton::RerollTtiles)
                } else if r == 2 {
                    Some(ControlButton::PassTurn)
                } else {
                    None
                }
            } else {
                if r == 0 {
                    Some(ControlButton::ConfirmReroll)
                } else if r == 1 {
                    Some(ControlButton::CancelReroll)
                } else {
                    None
                }
            },
            None => None,
        }
    }

    /// The button in row `row` of the button column, if any.
    pub fn button_at(&self, row: Option<usize>) -> (res: Option<ControlButton>)
        ensures
            res == self.spec_button_at(row),
    {
        let placing = match &self.player_action {
            PlayerAction::PlacingTiles(_) => true,
            PlayerAction::Rerolling(_) => false,
        };
        match row {
            Some(r) => if placing {
                if r == 0 {
                    Some(ControlButton::ConfirmMove)
                } else if r == 1 {
                    Some(ControlButton::RerollTtiles)
                } else if r == 2 {
                    Some(ControlButton::PassTurn)
                } else {
                    None
                }
            } else {
                if r == 0 {
                    Some(ControlButton::ConfirmReroll)
                } else if r == 1 {
                    Some(ControlButton::CancelReroll)
                } else {
                    None
                }
            },
            None => None,
        }
    }

    /// Pressing button `b` does not panic.
    pub open spec fn button_safe(&self, b: ControlButton) -> bool {
        match b {
            ControlButton::ConfirmMove => self.confirm_safe(),
            ControlButton::PassTurn => self.passes_in_row < usize::MAX,
            ControlButton::ConfirmReroll => self.reroll_safe(),
            _ => true,
        }
    }

    /// `new` is what pressing button `b` makes of `self`.
    pub open spec fn after_button(&self, b: ControlButton, new: &ActiveGame) -> bool {
        match b {
            ControlButton::ConfirmMove => self.after_confirm_move(new),
            ControlButton::RerollTtiles => self.after_init_reroll(new),
            ControlButton::PassTurn => self.after_pass_turn(new),
            ControlButton::ConfirmReroll => self.after_confirm_reroll(new),
            ControlButton::CancelReroll => self.after_cancel_reroll(new),
        }
    }

    fn apply_control_button(&mut self, button: ControlButton)
        requires
            old(self).player_index < old(self).players@.len(),
            old(self).board.wf(),
            old(self).button_safe(button),
        ensures
            old(self).after_button(button, &*final(self)),
    {
        match button {
            ControlButton::ConfirmMove => self.confirm_move(),
            ControlButton::RerollTtiles => self.init_reroll(),
            ControlButton::PassTurn => self.pass_turn(),
            ControlButton::ConfirmReroll => self.confirm_reroll(),
            ControlButton::CancelReroll => self.cancel_reroll(),
        }
    }

    /// Pressing a button keeps a game well formed.
    pub proof fn lemma_button_keeps_wf(&self, b: ControlButton, new: ActiveGame)
        requires
            self.wf(),
            self.button_safe(b),
            self.after_button(b, &new),
        ensures
            new.wf(),
    {
        match b {
            ControlButton::ConfirmMove => lemma_confirm_move_keeps_wf(*self, new),
            ControlButton::RerollTtiles => lemma_init_reroll_keeps_wf(*self, new),
            ControlButton::PassTurn => lemma_pass_turn_keeps_wf(*self, new),
            ControlButton::ConfirmReroll => lemma_confirm_reroll_keeps_wf(*self, new),
            ControlButton::CancelReroll => lemma_cancel_reroll_keeps_wf(*self, new),
        }
    }

    /// What pressing mouse button `button` on `t` does. With a popup shown,
    /// any press closes it. Otherwise only the left button acts: while
    /// placing tiles it picks up a tile from the board or the hand, or
    /// presses a button; while choosing tiles to exchange it flips the
    /// choice of a tile of the hand, or presses a button.
    pub open spec fn down_effect(&self, button: PointerButton, t: ClickTarget) -> ClickEffect {
        if self.board_popup is Some {
            ClickEffect::ClosePopup
        } else if button != PointerButton::Left {
            ClickEffect::Nothing
        } else if self.placing() {
            match t.board_cell {
                Some(p) => ClickEffect::PickFromBoard(p.0, p.1),
                None => if t.hand_column matches Some(c) && c < self.cur_hand().len() {
                    ClickEffect::PickFromHand(t.hand_column.unwrap())
                } else {
                    match self.spec_button_at(t.button_row) {
                        Some(b) => ClickEffect::Press(b),
                        None => ClickEffect::Nothing,
                    }
                },
            }
        } else {
            if t.hand_column matches Some(c) && c < 10 {
                ClickEffect::Select(t.hand_column.unwrap())
            } else {
                match self.spec_button_at(t.button_row) {
                    Some(b) => ClickEffect::Press(b),
                    None => ClickEffect::Nothing,
                }
            }
        }
    }

    /// The effect does not panic: choosing a tile takes an equals sign in
    /// hand, and a button must be safe to press.
    pub open spec fn effect_safe(&self, e: ClickEffect) -> bool {
        match e {
            ClickEffect::Select(_) => self.cur_hand().contains(Tile::EqualsSign),
            ClickEffect::Press(b) => self.button_safe(b),
            _ => true,
        }
    }

    /// `new` is what the effect `e` makes of `self`.
    pub open spec fn after_effect(&self, e: ClickEffect, new: &ActiveGame) -> bool {
        match e {
            ClickEffect::ClosePopup => new.same_but_popup(self) && new.board_popup is None,
            ClickEffect::Nothing => *new == *self,
            ClickEffect::PickFromBoard(x, y) => self.after_pick_up_from_board(x as int, y as int, new),
            ClickEffect::PickFromHand(c) => self.after_pick_up_from_hand(c as int, new),
            ClickEffect::Select(c) => self.after_select(c as int, new),
            ClickEffect::Press(b) => self.after_button(b, new),
        }
    }

    /// The player presses a mouse button on `target` (see `down_effect`).
    pub fn mouse_button_down_event(&mut self, button: PointerButton, target: ClickTarget)
        requires
            old(self).wf(),
            cell_valid(target.board_cell),
            old(self).effect_safe(old(self).down_effect(button, target)),
        ensures
            old(self).after_effect(old(self).down_effect(button, target), &*final(self)),
            final(self).wf(),
    {
        let ghost g0 = *self;
        if self.board_popup.is_none() {
            if button == PointerButton::Left {
                let placing = match &self.player_action {
                    PlayerAction::PlacingTiles(_) => true,
                    PlayerAction::Rerolling(_) => false,
                };
                if placing {
                    let tiles_in_hand = self.players[self.player_index].hand_len();
                    if let Some((x, y)) = target.board_cell {
                        self.pick_up_tile_from_board(x, y);
                        proof {
                            lemma_pick_up_from_board_keeps_wf(g0, x as int, y as int, *self);
                        }
                    } else if target.hand_column.is_some() && target.hand_column.unwrap() < tiles_in_hand {
                        let x = target.hand_column.unwrap();
                        self.pick_up_tile_from_hand(x);
                        proof {
                            lemma_pick_up_from_hand_keeps_wf(g0, x as int, *self);
                        }
                    } else if let Some(b) = self.button_at(target.button_row) {
                        self.apply_control_button(b);
                        proof {
                            g0.lemma_button_keeps_wf(b, *self);
                        }
                    }
                } else {
                    if target.hand_column.is_some() && target.hand_column.unwrap() < PLAYER_HAND_SIZE_WITH_EQUALS_SIGN {
                        let x = target.hand_column.unwrap();
                        self.select_tile_in_hand(x);
                        proof {
                            lemma_select_keeps_wf(g0, x as int, *self);
                        }
                    } else if let Some(b) = self.button_at(target.button_row) {
                        self.apply_control_button(b);
                        proof {
                            g0.lemma_button_keeps_wf(b, *self);
                        }
                    }
                }
            }
        } else {
            self.board_popup = None;
            proof {
                lemma_hands_bounded_same(g0, *self);
                lemma_wf_intro(*self);
            }
        }
    }

    /// `new` is what releasing mouse button `button` over square `cell`
    /// makes of `self`. The right button takes back the temporary tile of
    /// the square, or every temporary tile when released off the board. The
    /// left button drops the tile in move: on the square if it is empty,
    /// else into the hand.
    pub open spec fn after_mouse_up(&self, button: PointerButton, cell: Option<(usize, usize)>, new: &ActiveGame) -> bool {
        match button {
            PointerButton::Other => *new == *self,
            PointerButton::Right => match cell {
                Some(p) => self.after_pop_tile(p.0 as int, p.1 as int, new),
                None => self.after_pop_all(new),
            },
            PointerButton::Left => if self.in_move() is Some {
                match cell {
                    Some(p) => if self.board.cell(p.0 as int, p.1 as int) is None {
                        self.after_put_on_board(p.0 as int, p.1 as int, new)
                    } else {
                        self.after_put_to_hand(new)
                    },
                    None => self.after_put_to_hand(new),
                }
            } else {
                *new == *self
            },
        }
    }

    /// The player releases a mouse button over board square `cell`, if any.
    pub fn mouse_button_up_event(&mut self, button: PointerButton, cell: Option<(usize, usize)>)
        requires
            old(self).wf(),
            cell_valid(cell),
        ensures
            old(self).after_mouse_up(button, cell, &*final(self)),
            final(self).wf(),
    {
        let ghost g0 = *self;
        if button == PointerButton::Other {
            return;
        }
        if button == PointerButton::Right {
            if let Some((x, y)) = cell {
                self.pop_tile_from_board(x, y);
                proof {
                    lemma_pop_tile_keeps_wf(g0, x as int, y as int, *self);
                }
            } else {
                self.pop_all_tiles_from_board();
                proof {
                    lemma_pop_all_keeps_wf(g0, *self);
                }
            }
            return;
        }
        let dragging = match &self.player_action {
            PlayerAction::PlacingTiles(placing) => placing.tile_in_move.is_some(),
            PlayerAction::Rerolling(_) => false,
        };
        if dragging {
            if let Some((x, y)) = cell {
                if !self.put_tile_on_board(x, y) {
                    self.put_tile_to_hand();
                    proof {
                        lemma_put_to_hand_keeps_wf(g0, *self);
                    }
                } else {
                    proof {
                        lemma_put_on_board_keeps_wf(g0, x as int, y as int, *self);
                    }
                }
            } else {
                self.put_tile_to_hand();
                proof {
                    lemma_put_to_hand_keeps_wf(g0, *self);
                }
            }
        }
    }
}

/// A tile at a position that is not chosen stays in the hand.
proof fn lemma_kept_contains(h: Seq<Tile>, sel: Seq<bool>, i: int, j: int)
    requires
        0 <= i <= j < h.len(),
        !(j < 10 && sel[j]),
    ensures
        kept_from(h, sel, i).contains(h[j]),
    decreases j - i,
{
    if i == j {
        assert(kept_from(h, sel, i)[0] == h[j]);
    } else {
        lemma_kept_contains(h, sel, i + 1, j);
        let rest = kept_from(h, sel, i + 1);
        let k = choose|k: int| 0 <= k < rest.len() && rest[k] == h[j];
        if !(i < 10 && sel[i]) {
            assert(kept_from(h, sel, i)[k + 1] == h[j]);
        }
    }
}

/// An exchange never gives back the equals sign: in a well-formed game it
/// is never chosen, so the tiles kept in hand still hold it.
pub proof fn lemma_reroll_keeps_equals(g: ActiveGame)
    requires
        g.wf(),
        g.rerolling(),
        has_equals(g.cur_hand()),
    ensures
        has_equals(kept_hand(g.cur_hand(), g.selected())),
{
    let h = g.cur_hand();
    lemma_equals_indices(h);
    let e = equals_indices(h)[0];
    lemma_kept_contains(h, g.selected(), 0, e);
    let kh = kept_hand(h, g.selected());
    let k = choose|k: int| 0 <= k < kh.len() && kh[k] == h[e];
    assert(kh[k] is EqualsSign);
}

/// The label of a button.
pub open spec fn button_text(b: ControlButton) -> Seq<char> {
    match b {
        ControlButton::ConfirmMove => "Confirm move"@,
        ControlButton::RerollTtiles => "Reroll tiles"@,
        ControlButton::PassTurn => "Pass turn"@,
        ControlButton::ConfirmReroll => "Confirm reroll"@,
        ControlButton::CancelReroll => "Cancel reroll"@,
    }
}

impl ControlButton {
    /// The label of the button.
    pub fn to_string(&self) -> (res: String)
        ensures
            res@ == button_text(*self),
    {
        match self {
            ControlButton::ConfirmMove => String::from_str("Confirm move"),
            ControlButton::RerollTtiles => String::from_str("Reroll tiles"),
            ControlButton::PassTurn => String::from_str("Pass turn"),
            ControlButton::ConfirmReroll => String::from_str("Confirm reroll"),
            ControlButton::CancelReroll => String::from_str("Cancel reroll"),
        }
    }
}

/// How many passes in a row, as an ordinal; four and more read "4th".
pub open spec fn ordinal_text(n: usize) -> Seq<char> {
    if n == 1 {
        "1st"@
    } else if n == 2 {
        "2nd"@
    } else if n == 3 {
        "3rd"@
    } else {
        "4th"@
    }
}

/// The text of a popup. When the game has one player, the turn stays and
/// the text does not announce the next player.
pub open spec fn popup_text(p: PopupView) -> Seq<char> {
    match p {
        PopupView::Scored(points, many) => if many {
            "You have scored "@ + decimal(points as nat) + " points. Next player's turn now."@
        } else {
            "You have scored "@ + decimal(points as nat) + " points."@
        },
        PopupView::Passed(n) => "You have passed your turn ("@ + ordinal_text(n)
            + " reroll in a row). Next player's turn now."@,
        PopupView::Rerolled(t, many) => if many {
            "You have rerolled "@ + decimal(t as nat) + " tile"@ + (if t > 1 {
                "s"@
            } else {
                ""@
            }) + ". Next player's turn now."@
        } else {
            "You have rerolled "@ + decimal(t as nat) + " tiles."@
        },
        PopupView::NotEnoughTilesToReroll => "Not enough tiles in bag to reroll."@,
        PopupView::NoTilesSelectedToReroll => "Select at least one tile to reroll."@,
        PopupView::InvalidBoard(r) => "Invalid move. "@ + invalid_board_text(r),
    }
}

/// The text of a popup can be written (see `invalid_board_text_ok`).
pub open spec fn popup_text_ok(p: PopupView) -> bool {
    p matches PopupView::InvalidBoard(r) ==> invalid_board_text_ok(r)
}

impl ActiveGamePopup {
    /// The text of the popup.
    pub fn to_string(&self) -> (res: String)
        requires
            popup_text_ok(self@),
        ensures
            res@ == popup_text(self@),
    {
        match self {
            ActiveGamePopup::Scored(points, many) => {
                let mut s = String::from_str("You have scored ");
                let pt = u64_to_string(*points);
                s.append(pt.as_str());
                if *many {
                    s.append(" points. Next player's turn now.");
                } else {
                    s.append(" points.");
                }
                s
            },
            ActiveGamePopup::Passed(n) => {
                let mut s = String::from_str("You have passed your turn (");
                if *n == 1 {
                    s.append("1st");
                } else if *n == 2 {
                    s.append("2nd");
                } else if *n == 3 {
                    s.append("3rd");
                } else {
                    s.append("4th");
                }
                s.append(" reroll in a row). Next player's turn now.");
                s
            },
            ActiveGamePopup::Rerolled(t, many) => {
                let mut s = String::from_str("You have rerolled ");
                let tt = u64_to_string(*t as u64);
                s.append(tt.as_str());
                if *many {
                    s.append(" tile");
                    if *t > 1 {
                        s.append("s");
                    } else {
                        s.append("");
                    }
                    s.append(". Next player's turn now.");
                } else {
                    s.append(" tiles.");
                }
                s
            },
            ActiveGamePopup::NotEnoughTilesToReroll => String::from_str("Not enough tiles in bag to reroll."),
            ActiveGamePopup::NoTilesSelectedToReroll => String::from_str("Select at least one tile to reroll."),
            ActiveGamePopup::InvalidBoard(reason) => {
                let mut s = String::from_str("Invalid move. ");
                let rt = reason.to_string();
                s.append(rt.as_str());
                s
            },
        }
    }
}

/// Without chosen positions past the end of the hand, the kept and the
/// given back tiles together are the whole hand, from position `i` on.
proof fn lemma_exchange_sizes(h: Seq<Tile>, sel: Seq<bool>, i: int)
    requires
        0 <= i,
        forall|j: int| 0 <= j < 10 && #[trigger] sel[j] ==> j < h.len(),
    ensures
        kept_from(h, sel, i).len() + discarded_from(h, sel, i).len() == if i < h.len() {
            h.len() - i
        } else {
            0
        },
    decreases (if h.len() > 10 { h.len() as int } else { 10 }) - i,
{
    if i < h.len() || i < 10 {
        lemma_exchange_sizes(h, sel, i + 1);
        if i < 10 && sel[i] {
            assert(i < h.len());
        }
    }
}

impl ActiveGame {
    /// What pressing `button` on `target` does (see `down_effect`).
    pub fn click_effect(&self, button: PointerButton, target: ClickTarget) -> (e: ClickEffect)
        requires
            self.player_index < self.players@.len(),
        ensures
            e == self.down_effect(button, target),
    {
        if self.board_popup.is_some() {
            return ClickEffect::ClosePopup;
        }
        if button != PointerButton::Left {
            return ClickEffect::Nothing;
        }
        let placing = match &self.player_action {
            PlayerAction::PlacingTiles(_) => true,
            PlayerAction::Rerolling(_) => false,
        };
        let pressed = match self.button_at(target.button_row) {
            Some(b) => ClickEffect::Press(b),
            None => ClickEffect::Nothing,
        };
        if placing {
            match target.board_cell {
                Some((x, y)) => ClickEffect::PickFromBoard(x, y),
                None => match target.hand_column {
                    Some(c) => if c < self.players[self.player_index].hand_len() {
                        ClickEffect::PickFromHand(c)
                    } else {
                        pressed
                    },
                    None => pressed,
                },
            }
        } else {
            match target.hand_column {
                Some(c) => if c < PLAYER_HAND_SIZE_WITH_EQUALS_SIGN {
                    ClickEffect::Select(c)
                } else {
                    pressed
                },
                None => pressed,
            }
        }
    }

    /// Whether carrying out the effect `e` is safe (see `effect_safe`):
    /// the application tests it before passing a click on.
    pub fn effect_is_safe(&self, e: ClickEffect) -> (res: bool)
        requires
            self.wf(),
        ensures
            res == self.effect_safe(e),
    {
        let idx = self.player_index;
        match e {
            ClickEffect::Select(_) => {
                let res = hand_has_equals(&self.players[idx].hand);
                proof {
                    let h = self.cur_hand();
                    if res {
                        let i = choose|i: int| 0 <= i < h.len() && h[i] is EqualsSign;
                        assert(h[i] == Tile::EqualsSign);
                    }
                    if h.contains(Tile::EqualsSign) {
                        let i = choose|i: int| 0 <= i < h.len() && h[i] == Tile::EqualsSign;
                        assert(h[i] is EqualsSign);
                    }
                }
                res
            },
            ClickEffect::Press(ControlButton::ConfirmMove) => {
                match self.board.check_move() {
                    None => false,
                    Some(Err(_)) => true,
                    Some(Ok(t)) => {
                        let fits_score = self.players[idx].score.checked_add(t).is_some();
                        let n = self.players[idx].hand.len();
                        let fits_hand = if hand_has_equals(&self.players[idx].hand) {
                            n <= PLAYER_HAND_SIZE_WITH_EQUALS_SIGN
                        } else {
                            n < PLAYER_HAND_SIZE_WITH_EQUALS_SIGN
                        };
                        fits_score && fits_hand
                    },
                }
            },
            ClickEffect::Press(ControlButton::PassTurn) => self.passes_in_row < usize::MAX,
            ClickEffect::Press(ControlButton::ConfirmReroll) => {
                match &self.player_action {
                    PlayerAction::PlacingTiles(_) => true,
                    PlayerAction::Rerolling(r) => {
                        // Every chosen position holds a tile; then at least
                        // one tile leaves a hand of at most ten, so refilling
                        // fits.
                        let n = self.players[idx].hand.len();
                        let mut i: usize = 0;
                        while i < PLAYER_HAND_SIZE_WITH_EQUALS_SIGN
                            invariant
                                i <= 10,
                                e == ClickEffect::Press(ControlButton::ConfirmReroll),
                                self.wf(),
                                self.rerolling(),
                                r.tiles_selected@ == self.selected(),
                                n == self.cur_hand().len(),
                                idx == self.player_index,
                                forall|j: int| 0 <= j < i && #[trigger] self.selected()[j] ==> j < n,
                            decreases 10 - i,
                        {
                            if r.tiles_selected[i] && i >= n {
                                proof {
                                    assert(self.selected()[i as int]);
                                }
                                return false;
                            }
                            i += 1;
                        }
                        proof {
                            let h = self.cur_hand();
                            let sel = self.selected();
                            lemma_exchange_sizes(h, sel, 0);
                            lemma_hands_bounded(*self);
                            assert(h.len() <= 10);
                        }
                        true
                    },
                }
            },
            _ => true,
        }
    }
}

/// How many equals signs the tiles hold.
pub open spec fn equals_count(s: Seq<Tile>) -> nat {
    s.to_multiset().count(Tile::EqualsSign)
}

/// One for the equals sign, zero for any other tile.
pub open spec fn equals_of(t: Tile) -> nat {
    if t == Tile::EqualsSign {
        1
    } else {
        0
    }
}

proof fn lemma_count_push(s: Seq<Tile>, t: Tile)
    ensures
        equals_count(s.push(t)) == equals_count(s) + equals_of(t),
{
    broadcast use vstd::multiset::group_multiset_axioms, vstd::seq_lib::group_to_multiset_ensures;

}

proof fn lemma_count_concat(a: Seq<Tile>, b: Seq<Tile>)
    ensures
        equals_count(a + b) == equals_count(a) + equals_count(b),
{
    broadcast use vstd::multiset::group_multiset_axioms;

    vstd::seq_lib::lemma_multiset_commutative(a, b);
}

proof fn lemma_count_remove(s: Seq<Tile>, i: int)
    requires
        0 <= i < s.len(),
    ensures
        equals_count(s.remove(i)) + equals_of(s[i]) == equals_count(s),
{
    broadcast use vstd::multiset::group_multiset_axioms, vstd::seq_lib::group_to_multiset_ensures;

    assert(s.to_multiset().count(s[i]) > 0) by {
        assert(s.contains(s[i]));
    }
}

proof fn lemma_count_has_equals(s: Seq<Tile>)
    ensures
        has_equals(s) <==> equals_count(s) > 0,
{
    broadcast use vstd::seq_lib::group_to_multiset_ensures;

    if has_equals(s) {
        let i = choose|i: int| 0 <= i < s.len() && s[i] is EqualsSign;
        assert(s[i] == Tile::EqualsSign);
        assert(s.contains(Tile::EqualsSign));
    }
    if equals_count(s) > 0 {
        assert(s.contains(Tile::EqualsSign));
        let i = choose|i: int| 0 <= i < s.len() && s[i] == Tile::EqualsSign;
        assert(s[i] is EqualsSign);
    }
}

proof fn lemma_count_empty(s: Seq<Tile>)
    requires
        s.len() == 0,
    ensures
        equals_count(s) == 0,
{
    broadcast use vstd::multiset::group_multiset_axioms, vstd::seq_lib::group_to_multiset_ensures;

    assert(s.to_multiset().count(Tile::EqualsSign) <= s.to_multiset().len());
}

/// The equals signs among the tiles of the move change with one square by
/// what that square adds or takes away.
proof fn lemma_temp_count_update(new: Board, old: Board, x: int, y: int, v: Option<TileOnBoard>)
    requires
        new.is_update_of(old, x, y, v),
        in_board(x, y),
    ensures
        equals_count(new.temp_contents()) + temp_at(old, x, y).count(Tile::EqualsSign) == equals_count(
            old.temp_contents(),
        ) + temp_at(new, x, y).count(Tile::EqualsSign),
{
    broadcast use vstd::multiset::group_multiset_axioms;

    new.lemma_update_temp_multiset(old, x, y, v, 225);
    assert(x * 15 + y < 225);
    let m1 = new.temp_contents().to_multiset().add(temp_at(old, x, y));
    let m2 = old.temp_contents().to_multiset().add(temp_at(new, x, y));
    assert(m1 == m2);
    assert(m1.count(Tile::EqualsSign) == m2.count(Tile::EqualsSign));
}

impl ActiveGame {
    /// One when the tile in move is the equals sign, else zero.
    pub open spec fn equals_in_move(&self) -> nat {
        match self.in_move() {
            Some(t) => equals_of(t),
            None => 0,
        }
    }

    /// The equals signs the current player holds: in hand, among the tiles
    /// of the move on the board, and in move.
    pub open spec fn held_equals(&self) -> nat {
        equals_count(self.cur_hand()) + equals_count(self.board.temp_contents()) + self.equals_in_move()
    }

    /// Every player has exactly one equals sign (the current player counting
    /// the tiles of the move and the tile in move), and the bag holds none.
    pub open spec fn one_equals_each(&self) -> bool {
        &&& self.held_equals() == 1
        &&& forall|k: int|
            0 <= k < self.players@.len() && k != self.player_index ==> #[trigger] equals_count(self.hand_of(k)) == 1
        &&& equals_count(self.tiles_in_bag@) == 0
    }

    /// Pressing button `b` drops the tile in move, if any: a move that
    /// scores, passing, starting an exchange and going back to placing tiles
    /// all start afresh without it.
    pub open spec fn drops_tile_in_move(&self, b: ControlButton) -> bool {
        match b {
            ControlButton::ConfirmMove => self.board.spec_check_move() is Scored,
            ControlButton::RerollTtiles => self.tiles_in_bag@.len() >= 9,
            ControlButton::PassTurn => true,
            ControlButton::CancelReroll => true,
            ControlButton::ConfirmReroll => false,
        }
    }
}

/// With the current player's hand the only one changed, the other players
/// keep their equals sign.
proof fn lemma_others_keep_equals(g: ActiveGame, new: ActiveGame)
    requires
        g.one_equals_each(),
        g.player_index < g.players@.len(),
        new.player_index == g.player_index,
        new.players@.len() == g.players@.len(),
        forall|k: int| 0 <= k < g.players@.len() && k != g.player_index ==> #[trigger] new.players@[k] == g.players@[k],
    ensures
        forall|k: int|
            0 <= k < new.players@.len() && k != new.player_index ==> #[trigger] equals_count(new.hand_of(k)) == 1,
{
    assert forall|k: int| 0 <= k < new.players@.len() && k != new.player_index implies #[trigger] equals_count(
        new.hand_of(k),
    ) == 1 by {
        assert(new.players@[k] == g.players@[k]);
        assert(equals_count(g.hand_of(k)) == 1);
    }
}

/// When the turn passes and the player who had it ends with one equals
/// sign in hand, every player has one in hand.
proof fn lemma_all_keep_equals(g: ActiveGame, new: ActiveGame)
    requires
        g.one_equals_each(),
        g.player_index < g.players@.len(),
        new.players@.len() == g.players@.len(),
        forall|k: int| 0 <= k < g.players@.len() && k != g.player_index ==> #[trigger] new.players@[k] == g.players@[k],
        equals_count(new.hand_of(g.player_index as int)) == 1,
    ensures
        forall|k: int| 0 <= k < new.players@.len() ==> #[trigger] equals_count(new.hand_of(k)) == 1,
{
    assert forall|k: int| 0 <= k < new.players@.len() implies #[trigger] equals_count(new.hand_of(k)) == 1 by {
        if k != g.player_index {
            assert(new.players@[k] == g.players@[k]);
            assert(equals_count(g.hand_of(k)) == 1);
        }
    }
}

/// Picking up a tile from the hand keeps one equals sign each.
pub proof fn lemma_pick_up_from_hand_keeps_equals(g: ActiveGame, x: int, new: ActiveGame)
    requires
        g.wf(),
        g.one_equals_each(),
        0 <= x < g.cur_hand().len(),
        g.after_pick_up_from_hand(x, &new),
    ensures
        new.one_equals_each(),
{
    if g.placing() && g.in_move() is None {
        lemma_count_remove(g.cur_hand(), x);
        lemma_others_keep_equals(g, new);
    }
}

/// Picking up a tile from the board keeps one equals sign each.
pub proof fn lemma_pick_up_from_board_keeps_equals(g: ActiveGame, x: int, y: int, new: ActiveGame)
    requires
        g.wf(),
        g.one_equals_each(),
        in_board(x, y),
        g.after_pick_up_from_board(x, y, &new),
    ensures
        new.one_equals_each(),
{
    broadcast use vstd::multiset::group_multiset_axioms;

    if g.placing() && g.in_move() is None && g.board.temporary(x, y) {
        lemma_temp_count_update(new.board, g.board, x, y, None);
        lemma_others_keep_equals(g, new);
    }
}

/// Dropping the tile in move into the hand keeps one equals sign each.
pub proof fn lemma_put_to_hand_keeps_equals(g: ActiveGame, new: ActiveGame)
    requires
        g.wf(),
        g.one_equals_each(),
        g.after_put_to_hand(&new),
    ensures
        new.one_equals_each(),
{
    if let Some(t) = g.in_move() {
        lemma_count_push(g.cur_hand(), t);
        lemma_others_keep_equals(g, new);
    }
}

/// Dropping the tile in move on the board keeps one equals sign each.
pub proof fn lemma_put_on_board_keeps_equals(g: ActiveGame, x: int, y: int, new: ActiveGame)
    requires
        g.wf(),
        g.one_equals_each(),
        in_board(x, y),
        g.after_put_on_board(x, y, &new),
    ensures
        new.one_equals_each(),
{
    broadcast use vstd::multiset::group_multiset_axioms;

    if g.in_move() is Some && g.board.cell(x, y) is None {
        let t = TileOnBoard { content: g.in_move().unwrap(), status: TileStatus::Temporary };
        lemma_temp_count_update(new.board, g.board, x, y, Some(t));
        assert(new.board.temporary(x, y));
        lemma_others_keep_equals(g, new);
    }
}

/// Taking back one temporary tile keeps one equals sign each.
pub proof fn lemma_pop_tile_keeps_equals(g: ActiveGame, x: int, y: int, new: ActiveGame)
    requires
        g.wf(),
        g.one_equals_each(),
        in_board(x, y),
        g.after_pop_tile(x, y, &new),
    ensures
        new.one_equals_each(),
{
    broadcast use vstd::multiset::group_multiset_axioms;

    if g.board.temporary(x, y) {
        lemma_temp_count_update(new.board, g.board, x, y, None);
        lemma_count_push(g.cur_hand(), g.board.cell(x, y).unwrap().content);
        lemma_others_keep_equals(g, new);
    }
}

/// Taking back every temporary tile keeps one equals sign each.
pub proof fn lemma_pop_all_keeps_equals(g: ActiveGame, new: ActiveGame)
    requires
        g.wf(),
        g.one_equals_each(),
        g.after_pop_all(&new),
    ensures
        new.one_equals_each(),
        equals_count(new.board.temp_contents()) == 0,
{
    lemma_pop_all_keeps_wf(g, new);
    lemma_count_empty(new.board.temp_contents());
    if g.board.temp_contents().len() > 0 {
        lemma_count_concat(g.cur_hand(), g.board.temp_contents());
        lemma_others_keep_equals(g, new);
    } else {
        lemma_count_empty(g.board.temp_contents());
        lemma_others_keep_equals(g, new);
    }
}

/// Choosing a tile to exchange keeps one equals sign each.
pub proof fn lemma_select_keeps_equals(g: ActiveGame, pos: int, new: ActiveGame)
    requires
        g.wf(),
        g.one_equals_each(),
        g.after_select(pos, &new),
    ensures
        new.one_equals_each(),
{
    lemma_others_keep_equals(g, new);
    assert(new.cur_hand() == g.cur_hand());
    assert(new.board == g.board);
    assert(new.in_move() is None || new.player_action == g.player_action);
}

/// Tiles taken from a bag without equals signs hold none, and neither
/// does what is left.
proof fn lemma_bag_split_counts(bag: Seq<Tile>, k: int)
    requires
        0 <= k <= bag.len(),
        equals_count(bag) == 0,
    ensures
        equals_count(bag.take(k)) == 0,
        equals_count(reversed(bag.subrange(k, bag.len() as int))) == 0,
{
    let sub = bag.subrange(k, bag.len() as int);
    assert(bag =~= bag.take(k) + sub);
    lemma_count_concat(bag.take(k), sub);
    assert(reversed(sub) =~= sub.reverse());
    sub.lemma_reverse_to_multiset();
}

/// Refilling a hand with one equals sign from a bag without any gives a
/// hand with one equals sign and leaves a bag without any.
proof fn lemma_refill_counts(h: Seq<Tile>, bag: Seq<Tile>)
    requires
        equals_count(h) <= 1,
        equals_count(bag) == 0,
        refill_fits(h),
    ensures
        equals_count(refilled_hand(h, bag)) == 1,
        equals_count(refilled_bag(h, bag)) == 0,
{
    lemma_refilled_len(h, bag);
    let rc = refill_count(h, bag);
    lemma_bag_split_counts(bag, bag.len() - rc);
    lemma_count_has_equals(h);
    if !has_equals(h) {
        lemma_count_push(h, Tile::EqualsSign);
    }
    lemma_count_concat(with_equals(h), reversed(bag.subrange(bag.len() - rc, bag.len() as int)));
}

/// The equals signs of the hand are those kept plus those given back.
proof fn lemma_exchange_counts(h: Seq<Tile>, sel: Seq<bool>, i: int)
    requires
        0 <= i,
        forall|j: int| 0 <= j < 10 && #[trigger] sel[j] ==> j < h.len(),
    ensures
        equals_count(kept_from(h, sel, i)) + equals_count(discarded_from(h, sel, i)) == if i < h.len() {
            equals_count(h.subrange(i, h.len() as int))
        } else {
            0
        },
    decreases (if h.len() > 10 { h.len() as int } else { 10 }) - i,
{
    if i < h.len() || i < 10 {
        lemma_exchange_counts(h, sel, i + 1);
        if i < 10 && sel[i] {
            assert(i < h.len());
        }
        if i < h.len() {
            let rest = h.subrange(i + 1, h.len() as int);
            assert(h.subrange(i, h.len() as int) =~= seq![h[i]] + rest);
            lemma_count_concat(seq![h[i]], rest);
            lemma_count_push(Seq::empty(), h[i]);
            assert(seq![h[i]] =~= Seq::<Tile>::empty().push(h[i]));
            lemma_count_empty(Seq::<Tile>::empty());
            if i < 10 && sel[i] {
                lemma_count_push(discarded_from(h, sel, i + 1), h[i]);
            } else {
                lemma_count_concat(seq![h[i]], kept_from(h, sel, i + 1));
            }
            if i + 1 >= h.len() {
                lemma_count_empty(rest);
            }
        } else {
            lemma_count_empty(kept_from(h, sel, i));
        }
    } else {
        lemma_count_empty(kept_from(h, sel, i));
        lemma_count_empty(discarded_from(h, sel, i));
    }
}

/// Confirming a move keeps one equals sign each, when a move that scores is
/// not confirmed with a tile in move.
pub proof fn lemma_confirm_move_keeps_equals(g: ActiveGame, new: ActiveGame)
    requires
        g.wf(),
        g.one_equals_each(),
        g.confirm_safe(),
        g.after_confirm_move(&new),
        g.board.spec_check_move() is Scored ==> g.in_move() is None,
    ensures
        new.one_equals_each(),
{
    if g.board.spec_check_move() is Scored {
        let h = g.cur_hand();
        lemma_refill_counts(h, g.tiles_in_bag@);
        assert forall|x: int, y: int| in_board(x, y) implies !#[trigger] new.board.temporary(x, y) by {
            assert(new.board.cell(x, y) == made_permanent(g.board.cell(x, y)));
        }
        new.board.lemma_no_temporary(225);
        lemma_count_empty(new.board.temp_contents());
        lemma_all_keep_equals(g, new);
        assert(equals_count(new.hand_of(new.player_index as int)) == 1);
    } else {
        lemma_others_keep_equals(g, new);
    }
}

/// Passing the turn keeps one equals sign each, when no tile is in move.
pub proof fn lemma_pass_turn_keeps_equals(g: ActiveGame, new: ActiveGame)
    requires
        g.wf(),
        g.one_equals_each(),
        g.after_pass_turn(&new),
        g.in_move() is None,
    ensures
        new.one_equals_each(),
{
    lemma_pass_turn_keeps_wf(g, new);
    assert forall|x: int, y: int| in_board(x, y) implies !#[trigger] new.board.temporary(x, y) by {
        assert(new.board.cell(x, y) == without_temporary(g.board.cell(x, y)));
    }
    new.board.lemma_no_temporary(225);
    lemma_count_empty(new.board.temp_contents());
    lemma_count_concat(g.cur_hand(), g.board.temp_contents());
    lemma_all_keep_equals(g, new);
    assert(equals_count(new.hand_of(new.player_index as int)) == 1);
}

/// Starting an exchange keeps one equals sign each, when no tile is in move.
pub proof fn lemma_init_reroll_keeps_equals(g: ActiveGame, new: ActiveGame)
    requires
        g.wf(),
        g.one_equals_each(),
        g.after_init_reroll(&new),
        g.tiles_in_bag@.len() >= 9 ==> g.in_move() is None,
    ensures
        new.one_equals_each(),
{
    if g.tiles_in_bag@.len() >= 9 {
        assert forall|x: int, y: int| in_board(x, y) implies !#[trigger] new.board.temporary(x, y) by {
            assert(new.board.cell(x, y) == without_temporary(g.board.cell(x, y)));
        }
        new.board.lemma_no_temporary(225);
        lemma_count_empty(new.board.temp_contents());
        lemma_count_concat(g.cur_hand(), g.board.temp_contents());
        lemma_others_keep_equals(g, new);
    } else {
        lemma_others_keep_equals(g, new);
    }
}

/// Going back to placing tiles keeps one equals sign each, when no tile is
/// in move.
pub proof fn lemma_cancel_reroll_keeps_equals(g: ActiveGame, new: ActiveGame)
    requires
        g.wf(),
        g.one_equals_each(),
        g.after_cancel_reroll(&new),
        g.in_move() is None,
    ensures
        new.one_equals_each(),
{
    lemma_others_keep_equals(g, new);
}

/// Confirming an exchange keeps one equals sign each: the equals sign stays
/// in hand and the bag gets none.
pub proof fn lemma_confirm_reroll_keeps_equals(g: ActiveGame, new: ActiveGame)
    requires
        g.wf(),
        g.one_equals_each(),
        g.reroll_safe(),
        g.after_confirm_reroll(&new),
    ensures
        new.one_equals_each(),
{
    let h = g.cur_hand();
    let sel = g.selected();
    if g.rerolling() && discarded(h, sel).len() > 0 {
        let k = kept_hand(h, sel);
        let d = discarded(h, sel);
        lemma_count_empty(g.board.temp_contents());
        assert(equals_count(h) == 1);
        lemma_exchange_counts(h, sel, 0);
        if h.len() == 0 {
            lemma_count_empty(h);
        }
        assert(h.subrange(0, h.len() as int) =~= h);
        lemma_count_has_equals(h);
        lemma_reroll_keeps_equals(g);
        lemma_count_has_equals(k);
        assert(equals_count(k) == 1);
        assert(equals_count(d) == 0);
        lemma_refill_counts(k, g.tiles_in_bag@);
        lemma_count_concat(refilled_bag(k, g.tiles_in_bag@), d);
        lemma_all_keep_equals(g, new);
        assert(equals_count(new.hand_of(new.player_index as int)) == 1);
        assert(new.board == g.board);
    } else if g.rerolling() {
        lemma_others_keep_equals(g, new);
    }
}

/// Pressing a button keeps one equals sign each, unless it drops the
/// tile in move.
pub proof fn lemma_button_keeps_equals(g: ActiveGame, b: ControlButton, new: ActiveGame)
    requires
        g.wf(),
        g.one_equals_each(),
        g.button_safe(b),
        !(g.in_move() is Some && g.drops_tile_in_move(b)),
        g.after_button(b, &new),
    ensures
        new.one_equals_each(),
{
    match b {
        ControlButton::ConfirmMove => lemma_confirm_move_keeps_equals(g, new),
        ControlButton::RerollTtiles => lemma_init_reroll_keeps_equals(g, new),
        ControlButton::PassTurn => lemma_pass_turn_keeps_equals(g, new),
        ControlButton::ConfirmReroll => lemma_confirm_reroll_keeps_equals(g, new),
        ControlButton::CancelReroll => lemma_cancel_reroll_keeps_equals(g, new),
    }
}

/// Every press of a mouse button keeps one equals sign each, unless it
/// presses a button that drops the tile in move.
pub proof fn lemma_mouse_down_keeps_equals(g: ActiveGame, button: PointerButton, t: ClickTarget, new: ActiveGame)
    requires
        g.wf(),
        g.one_equals_each(),
        cell_valid(t.board_cell),
        g.effect_safe(g.down_effect(button, t)),
        g.down_effect(button, t) matches ClickEffect::Press(b) ==> !(g.in_move() is Some && g.drops_tile_in_move(b)),
        g.after_effect(g.down_effect(button, t), &new),
    ensures
        new.one_equals_each(),
{
    match g.down_effect(button, t) {
        ClickEffect::ClosePopup => lemma_others_keep_equals(g, new),
        ClickEffect::Nothing => {},
        ClickEffect::PickFromBoard(x, y) => lemma_pick_up_from_board_keeps_equals(g, x as int, y as int, new),
        ClickEffect::PickFromHand(c) => lemma_pick_up_from_hand_keeps_equals(g, c as int, new),
        ClickEffect::Select(c) => lemma_select_keeps_equals(g, c as int, new),
        ClickEffect::Press(b) => lemma_button_keeps_equals(g, b, new),
    }
}

/// Every release of a mouse button keeps one equals sign each.
pub proof fn lemma_mouse_up_keeps_equals(g: ActiveGame, button: PointerButton, cell: Option<(usize, usize)>, new: ActiveGame)
    requires
        g.wf(),
        g.one_equals_each(),
        cell_valid(cell),
        g.after_mouse_up(button, cell, &new),
    ensures
        new.one_equals_each(),
{
    match button {
        PointerButton::Other => {},
        PointerButton::Right => match cell {
            Some(p) => lemma_pop_tile_keeps_equals(g, p.0 as int, p.1 as int, new),
            None => lemma_pop_all_keeps_equals(g, new),
        },
        PointerButton::Left => if g.in_move() is Some {
            match cell {
                Some(p) => if g.board.cell(p.0 as int, p.1 as int) is None {
                    lemma_put_on_board_keeps_equals(g, p.0 as int, p.1 as int, new)
                } else {
                    lemma_put_to_hand_keeps_equals(g, new)
                },
                None => lemma_put_to_hand_keeps_equals(g, new),
            }
        },
    }
}

/// A fresh bag holds no equals sign.
proof fn lemma_initial_bag_count()
    ensures
        equals_count(initial_bag()) == 0,
{
    broadcast use vstd::seq_lib::group_to_multiset_ensures;

    if initial_bag().contains(Tile::EqualsSign) {
        let i = choose|i: int| 0 <= i < initial_bag().len() && initial_bag()[i] == Tile::EqualsSign;
        assert(initial_bag()[i] != Tile::EqualsSign);
    }
}

/// A new game starts with one equals sign in every hand and none in the bag.
pub proof fn lemma_new_game_one_equals_each(g: ActiveGame, s: Seq<Tile>)
    requires
        g.dealt_from(s),
        1 <= g.players@.len() <= 10,
        g.player_index == 0,
        g.placing(),
        g.in_move() is None,
        forall|x: int, y: int| in_board(x, y) ==> #[trigger] g.board.cell(x, y) is None,
    ensures
        g.one_equals_each(),
{
    broadcast use vstd::multiset::group_multiset_axioms;

    lemma_initial_bag_count();
    assert(equals_count(s) == 0);
    let n = g.players@.len();
    assert forall|k: int| 0 <= k < n implies #[trigger] equals_count(g.hand_of(k)) == 1 by {
        let part = s.subrange(96 - 9 * (k + 1), 96 - 9 * k);
        let rest = s.subrange(96 - 9 * k, 96);
        assert(s.take(96 - 9 * k) =~= s.take(96 - 9 * (k + 1)) + part);
        assert(s =~= s.take(96 - 9 * k) + rest);
        lemma_count_concat(s.take(96 - 9 * k), rest);
        lemma_count_concat(s.take(96 - 9 * (k + 1)), part);
        lemma_count_push(part, Tile::EqualsSign);
        assert(g.hand_of(k) == dealt_hand(s, k));
    }
    assert(s =~= s.take(96 - 9 * n) + s.subrange(96 - 9 * n, 96));
    lemma_count_concat(s.take(96 - 9 * n), s.subrange(96 - 9 * n, 96));
    assert forall|x: int, y: int| in_board(x, y) implies !#[trigger] g.board.temporary(x, y) by {}
    g.board.lemma_no_temporary(225);
    lemma_count_empty(g.board.temp_contents());
    assert(equals_count(g.hand_of(0)) == 1);
}

/// Dropping the tile in move on an empty square and picking it up again
/// gives back the same board, hands and tile in move.
pub proof fn lemma_put_then_pick_up_restores(g: ActiveGame, x: int, y: int, g1: ActiveGame, g2: ActiveGame)
    requires
        g.board.wf(),
        in_board(x, y),
        g.in_move() is Some,
        g.board.cell(x, y) is None,
        g.after_put_on_board(x, y, &g1),
        g1.after_pick_up_from_board(x, y, &g2),
    ensures
        g2.in_move() == g.in_move(),
        g2.placing(),
        forall|a: int, b: int| in_board(a, b) ==> #[trigger] g2.board.cell(a, b) == g.board.cell(a, b),
        g2.board.board == g.board.board,
        g2.players == g.players,
        g2.player_index == g.player_index,
        g2.tiles_in_bag == g.tiles_in_bag,
        g2.passes_in_row == g.passes_in_row,
        g2.board_popup == g.board_popup,
{
    assert(g1.board.temporary(x, y));
}

/// Choosing the same tile twice gives back the choice of tiles to exchange.
pub proof fn lemma_select_twice_restores(g: ActiveGame, pos: int, g1: ActiveGame, g2: ActiveGame)
    requires
        g.rerolling(),
        0 <= pos < g.selected().len(),
        g.after_select(pos, &g1),
        g1.after_select(pos, &g2),
    ensures
        g2.rerolling(),
        g2.selected() == g.selected(),
        g2.players == g.players,
        g2.same_table(&g),
{
    if pos != equals_indices(g.cur_hand())[0] {
        assert(g1.cur_hand() == g.cur_hand());
        assert(g2.selected() =~= g.selected());
    }
}

/// A move that scores ends any run of passes: afterwards no pass is
/// counted, so in a game of two or more players the pass that follows does
/// not finish the game.
pub proof fn lemma_scoring_move_resets_passes(g: ActiveGame, new: ActiveGame)
    requires
        g.after_confirm_move(&new),
        g.board.spec_check_move() is Scored,
    ensures
        new.passes_in_row == 0,
        forall|next: ActiveGame|
            new.after_pass_turn(&next) && g.players@.len() >= 2 ==> #[trigger] next.passes_in_row == 1
                && next.passes_in_row < next.players@.len(),
{
}

/// An exchange of at least one tile is no pass and ends any run of passes:
/// afterwards no pass is counted, so in a game of two or more players the
/// pass that follows does not finish the game.
pub proof fn lemma_exchange_resets_passes(g: ActiveGame, new: ActiveGame)
    requires
        g.after_confirm_reroll(&new),
        g.rerolling(),
        discarded(g.cur_hand(), g.selected()).len() > 0,
    ensures
        new.passes_in_row == 0,
        forall|next: ActiveGame|
            new.after_pass_turn(&next) && g.players@.len() >= 2 ==> #[trigger] next.passes_in_row == 1
                && next.passes_in_row < next.players@.len(),
{
}

} // verus!
