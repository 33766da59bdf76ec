use math_scrabble::active_game::{
    ActiveGame, ActiveGamePopup, ClickTarget, ControlButton, PlayerAction, PointerButton,
};
use math_scrabble::board::InvalidBoard;
use math_scrabble::tiles::{Digit, MathOperation, Tile, TileStatus};

fn game_tile(c: char) -> Tile {
    match c {
        '+' => Tile::Op(MathOperation::Plus),
        '-' => Tile::Op(MathOperation::Minus),
        '*' => Tile::Op(MathOperation::Times),
        '/' => Tile::Op(MathOperation::Div),
        '=' => Tile::EqualsSign,
        '0' => Tile::Digit(Digit::D0),
        '1' => Tile::Digit(Digit::D1),
        '2' => Tile::Digit(Digit::D2),
        '3' => Tile::Digit(Digit::D3),
        '4' => Tile::Digit(Digit::D4),
        '5' => Tile::Digit(Digit::D5),
        '6' => Tile::Digit(Digit::D6),
        '7' => Tile::Digit(Digit::D7),
        '8' => Tile::Digit(Digit::D8),
        '9' => Tile::Digit(Digit::D9),
        _ => panic!(),
    }
}

fn two_player_game() -> ActiveGame {
    ActiveGame::new(vec!["Ann".to_string(), "Bob".to_string()])
}

fn nowhere() -> ClickTarget {
    ClickTarget { board_cell: None, hand_column: None, button_row: None }
}

fn on_hand(i: usize) -> ClickTarget {
    ClickTarget { board_cell: None, hand_column: Some(i), button_row: None }
}

fn on_button(row: usize) -> ClickTarget {
    ClickTarget { board_cell: None, hand_column: None, button_row: Some(row) }
}

fn count(tiles: &[Tile], t: Tile) -> usize {
    tiles.iter().filter(|&&x| x == t).count()
}

#[test]
fn new_game_deals_nine_tiles_and_an_equals_sign() {
    let game = two_player_game();
    assert_eq!(game.players.len(), 2);
    assert_eq!(game.players[0].name, "Ann");
    assert_eq!(game.players[1].name, "Bob");
    for p in &game.players {
        assert_eq!(p.hand_len(), 10);
        assert_eq!(p.hand[9], Tile::EqualsSign);
        assert_eq!(count(&p.hand, Tile::EqualsSign), 1);
        assert_eq!(p.score, 0);
    }
    assert_eq!(game.tiles_in_bag.len(), 96 - 18);
    assert_eq!(game.player_index, 0);
    assert_eq!(game.passes_in_row, 0);
    assert!(game.board_popup.is_none());
    // The shuffle keeps every tile: six of each digit, nine of each operator.
    let mut all: Vec<Tile> = game.tiles_in_bag.clone();
    for p in &game.players {
        all.extend(p.hand.iter().filter(|t| **t != Tile::EqualsSign));
    }
    for d in Digit::all() {
        assert_eq!(count(&all, Tile::Digit(d)), 6);
    }
    for op in MathOperation::all() {
        assert_eq!(count(&all, Tile::Op(op)), 9);
    }
    assert!(game.check_finish().is_none());
}

#[test]
fn dragging_a_tile_from_the_hand_to_the_board() {
    let mut game = two_player_game();
    let first = game.players[0].hand[0];
    game.mouse_button_down_event(PointerButton::Left, on_hand(0));
    assert_eq!(game.players[0].hand_len(), 9);
    match &game.player_action {
        PlayerAction::PlacingTiles(p) => assert_eq!(p.tile_in_move, Some(first)),
        _ => panic!(),
    }
    game.mouse_button_up_event(PointerButton::Left, Some((7, 7)));
    let placed = game.board.letters[7][7].unwrap();
    assert_eq!(placed.content(), first);
    assert_eq!(placed.status(), TileStatus::Temporary);
    // Dropping on an occupied square sends the tile back to the hand.
    game.mouse_button_down_event(PointerButton::Left, on_hand(0));
    game.mouse_button_up_event(PointerButton::Left, Some((7, 7)));
    assert_eq!(game.players[0].hand_len(), 9);
    assert_eq!(game.board.letters[7][7].unwrap().content(), first);
    // A right click on the square takes the tile back.
    game.mouse_button_up_event(PointerButton::Right, Some((7, 7)));
    assert!(game.board.letters[7][7].is_none());
    assert_eq!(game.players[0].hand_len(), 10);
    assert_eq!(game.players[0].hand[9], first);
}

#[test]
fn picking_up_and_dropping_directly() {
    let mut game = two_player_game();
    assert!(game.pick_up_tile_from_hand(2));
    assert!(!game.pick_up_tile_from_hand(0));
    assert!(game.put_tile_on_board(7, 7));
    assert!(!game.put_tile_on_board(7, 8));
    assert!(game.pick_up_tile_from_board(7, 7));
    assert!(!game.pick_up_tile_from_board(7, 8));
    game.put_tile_to_hand();
    assert_eq!(game.players[0].hand_len(), 10);
    assert!(!game.pop_tile_from_board(7, 7));
}

#[test]
fn a_scoring_move_refills_the_hand_and_passes_the_turn() {
    let mut game = two_player_game();
    game.players[0].hand = "1+1=2345+*".chars().map(game_tile).collect();
    for y in 5..10 {
        game.mouse_button_down_event(PointerButton::Left, on_hand(0));
        game.mouse_button_up_event(PointerButton::Left, Some((7, y)));
    }
    assert_eq!(game.players[0].hand_len(), 5);
    let bag_before = game.tiles_in_bag.len();
    // The first button while placing tiles confirms the move.
    assert_eq!(game.button_at(Some(0)), Some(ControlButton::ConfirmMove));
    game.mouse_button_down_event(PointerButton::Left, on_button(0));
    assert_eq!(game.players[0].score, 8);
    assert_eq!(game.players[0].hand_len(), 10);
    assert_eq!(count(&game.players[0].hand, Tile::EqualsSign), 1);
    assert_eq!(game.tiles_in_bag.len(), bag_before - 4);
    assert_eq!(game.player_index, 1);
    assert!(game.switching_players());
    let popup = game.board_popup.as_ref().unwrap();
    assert!(matches!(popup, ActiveGamePopup::Scored(8, true)));
    assert_eq!(popup.to_string(), "You have scored 8 points. Next player's turn now.");
    for y in 5..10 {
        assert_eq!(game.board.letters[7][y].unwrap().status(), TileStatus::Permanent);
    }
    // Any click closes the popup.
    game.mouse_button_down_event(PointerButton::Right, nowhere());
    assert!(game.board_popup.is_none());
}

#[test]
fn a_refused_move_keeps_the_tiles_on_the_board() {
    let mut game = two_player_game();
    game.players[0].hand = "1+1=3345+*".chars().map(game_tile).collect();
    for y in 5..10 {
        game.mouse_button_down_event(PointerButton::Left, on_hand(0));
        game.mouse_button_up_event(PointerButton::Left, Some((7, y)));
    }
    game.confirm_move();
    assert_eq!(game.player_index, 0);
    assert_eq!(game.players[0].score, 0);
    let popup = game.board_popup.as_ref().unwrap();
    assert!(matches!(popup, ActiveGamePopup::InvalidBoard(InvalidBoard::InvalidEquation(_, _))));
    assert_eq!(
        popup.to_string(),
        "Invalid move. Horizontal equation starting at (8, 6) [1+1=3] is not valid. Left hand side is equal to 2 and right hand side is equal to 3."
    );
    assert_eq!(game.board.letters[7][7].unwrap().status(), TileStatus::Temporary);
    // A right click off the board takes every temporary tile back, in order.
    game.board_popup = None;
    game.mouse_button_up_event(PointerButton::Right, None);
    let back: Vec<Tile> = game.players[0].hand[5..].to_vec();
    assert_eq!(back, "1+1=3".chars().map(game_tile).collect::<Vec<Tile>>());
    assert!(game.board.letters[7].iter().all(|c| c.is_none()));
}

#[test]
fn passing_in_turn_finishes_the_game() {
    let mut game = two_player_game();
    game.pass_turn();
    assert_eq!(game.passes_in_row, 1);
    assert_eq!(game.player_index, 1);
    assert_eq!(
        game.board_popup.as_ref().unwrap().to_string(),
        "You have passed your turn (1st reroll in a row). Next player's turn now."
    );
    assert!(game.check_finish().is_none());
    game.board_popup = None;
    game.mouse_button_down_event(PointerButton::Left, on_button(2));
    assert_eq!(game.passes_in_row, 2);
    assert_eq!(game.player_index, 0);
    assert_eq!(
        game.check_finish(),
        Some(vec![("Ann".to_string(), 0), ("Bob".to_string(), 0)])
    );
}

#[test]
fn passing_returns_temporary_tiles() {
    let mut game = two_player_game();
    game.mouse_button_down_event(PointerButton::Left, on_hand(3));
    game.mouse_button_up_event(PointerButton::Left, Some((7, 7)));
    game.pass_turn();
    assert!(game.board.letters[7][7].is_none());
    assert_eq!(game.players[0].hand_len(), 10);
}

#[test]
fn one_player_game_shows_no_pass_popup() {
    let mut game = ActiveGame::new(vec!["Solo".to_string()]);
    game.pass_turn();
    assert!(game.board_popup.is_none());
    assert_eq!(game.player_index, 0);
    assert!(game.check_finish().is_some());
}

#[test]
fn exchanging_tiles() {
    let mut game = two_player_game();
    let bag_before = game.tiles_in_bag.len();
    game.mouse_button_down_event(PointerButton::Left, on_button(1));
    assert!(matches!(game.player_action, PlayerAction::Rerolling(_)));
    assert_eq!(game.button_at(Some(0)), Some(ControlButton::ConfirmReroll));
    assert_eq!(game.button_at(Some(1)), Some(ControlButton::CancelReroll));
    assert_eq!(game.button_at(Some(2)), None);
    // Nothing chosen yet.
    game.confirm_reroll();
    assert_eq!(
        game.board_popup.as_ref().unwrap().to_string(),
        "Select at least one tile to reroll."
    );
    game.board_popup = None;
    // The equals sign (position 9) cannot be chosen.
    game.mouse_button_down_event(PointerButton::Left, on_hand(9));
    game.mouse_button_down_event(PointerButton::Left, on_hand(0));
    game.mouse_button_down_event(PointerButton::Left, on_hand(4));
    game.mouse_button_down_event(PointerButton::Left, on_hand(4));
    game.mouse_button_down_event(PointerButton::Left, on_hand(1));
    match &game.player_action {
        PlayerAction::Rerolling(r) => {
            let chosen: Vec<usize> = (0..10).filter(|&i| r.tiles_selected[i]).collect();
            assert_eq!(chosen, vec![0, 1]);
        }
        _ => panic!(),
    }
    let kept: Vec<Tile> = game.players[0].hand[2..].to_vec();
    game.mouse_button_down_event(PointerButton::Left, on_button(0));
    assert_eq!(game.players[0].hand_len(), 10);
    assert_eq!(game.players[0].hand[..8].to_vec(), kept);
    assert_eq!(count(&game.players[0].hand, Tile::EqualsSign), 1);
    assert_eq!(game.tiles_in_bag.len(), bag_before);
    assert_eq!(game.player_index, 1);
    assert_eq!(game.passes_in_row, 0);
    assert_eq!(
        game.board_popup.as_ref().unwrap().to_string(),
        "You have rerolled 2 tiles. Next player's turn now."
    );
}

#[test]
fn cancelling_an_exchange() {
    let mut game = two_player_game();
    game.init_reroll();
    game.select_tile_in_hand(3);
    game.cancel_reroll();
    assert!(matches!(game.player_action, PlayerAction::PlacingTiles(_)));
    assert_eq!(game.button_at(Some(2)), Some(ControlButton::PassTurn));
}

#[test]
fn an_exchange_needs_nine_tiles_in_the_bag() {
    let mut game = two_player_game();
    game.tiles_in_bag.truncate(8);
    game.init_reroll();
    assert!(matches!(game.player_action, PlayerAction::PlacingTiles(_)));
    assert_eq!(
        game.board_popup.as_ref().unwrap().to_string(),
        "Not enough tiles in bag to reroll."
    );
}

#[test]
fn popup_texts() {
    assert_eq!(ActiveGamePopup::Scored(12, false).to_string(), "You have scored 12 points.");
    assert_eq!(
        ActiveGamePopup::Passed(2).to_string(),
        "You have passed your turn (2nd reroll in a row). Next player's turn now."
    );
    assert_eq!(
        ActiveGamePopup::Passed(3).to_string(),
        "You have passed your turn (3rd reroll in a row). Next player's turn now."
    );
    assert_eq!(
        ActiveGamePopup::Passed(7).to_string(),
        "You have passed your turn (4th reroll in a row). Next player's turn now."
    );
    assert_eq!(
        ActiveGamePopup::Rerolled(1, true).to_string(),
        "You have rerolled 1 tile. Next player's turn now."
    );
    assert_eq!(ActiveGamePopup::Rerolled(3, false).to_string(), "You have rerolled 3 tiles.");
    assert_eq!(
        ActiveGamePopup::InvalidBoard(InvalidBoard::TilesAreNotConnected).to_string(),
        "Invalid move. All tiles should be connected."
    );
}

#[test]
fn button_labels() {
    assert_eq!(ControlButton::ConfirmMove.to_string(), "Confirm move");
    assert_eq!(ControlButton::RerollTtiles.to_string(), "Reroll tiles");
    assert_eq!(ControlButton::PassTurn.to_string(), "Pass turn");
    assert_eq!(ControlButton::ConfirmReroll.to_string(), "Confirm reroll");
    assert_eq!(ControlButton::CancelReroll.to_string(), "Cancel reroll");
}

fn all_digits_and_operators(game: &ActiveGame) -> Vec<Tile> {
    let mut all: Vec<Tile> = game.tiles_in_bag.clone();
    for p in &game.players {
        all.extend(p.hand.iter().copied());
    }
    for row in &game.board.letters {
        for cell in row {
            if let Some(t) = cell {
                all.push(t.content());
            }
        }
    }
    if let PlayerAction::PlacingTiles(p) = &game.player_action {
        if let Some(t) = p.tile_in_move {
            all.push(t);
        }
    }
    all.retain(|t| *t != Tile::EqualsSign);
    all
}

fn assert_fresh_bag_counts(game: &ActiveGame) {
    let all = all_digits_and_operators(game);
    for d in Digit::all() {
        assert_eq!(count(&all, Tile::Digit(d)), 6);
    }
    for op in MathOperation::all() {
        assert_eq!(count(&all, Tile::Op(op)), 9);
    }
}

fn assert_one_equals_each(game: &ActiveGame) {
    assert_eq!(count(&game.tiles_in_bag, Tile::EqualsSign), 0);
    for (i, p) in game.players.iter().enumerate() {
        let mut n = count(&p.hand, Tile::EqualsSign);
        if i == game.player_index {
            for row in &game.board.letters {
                for cell in row {
                    if let Some(t) = cell {
                        if t.status() == TileStatus::Temporary && t.content() == Tile::EqualsSign {
                            n += 1;
                        }
                    }
                }
            }
            if let PlayerAction::PlacingTiles(pl) = &game.player_action {
                if pl.tile_in_move == Some(Tile::EqualsSign) {
                    n += 1;
                }
            }
        }
        assert_eq!(n, 1);
        assert!(p.hand.len() <= 10);
    }
}

#[test]
fn tiles_are_neither_made_nor_lost_and_everyone_keeps_one_equals_sign() {
    let mut game = two_player_game();
    // Give the first player a hand for "1+1=2" by swapping with the bag, so
    // that no tile is made.
    let wanted: Vec<Tile> = "1+1=2".chars().map(game_tile).collect();
    let mut hand: Vec<Tile> = Vec::new();
    let mut pool: Vec<Tile> = game.players[0].hand.clone();
    pool.extend(game.tiles_in_bag.iter().copied());
    for t in &wanted {
        let i = pool.iter().position(|x| x == t).unwrap();
        hand.push(pool.remove(i));
    }
    while hand.len() < 10 {
        let i = pool.iter().position(|x| *x != Tile::EqualsSign).unwrap();
        hand.push(pool.remove(i));
    }
    game.players[0].hand = hand;
    game.tiles_in_bag = pool;
    assert_fresh_bag_counts(&game);
    assert_one_equals_each(&game);

    for y in 5..10 {
        game.mouse_button_down_event(PointerButton::Left, on_hand(0));
        assert_fresh_bag_counts(&game);
        assert_one_equals_each(&game);
        game.mouse_button_up_event(PointerButton::Left, Some((7, y)));
        assert_fresh_bag_counts(&game);
        assert_one_equals_each(&game);
    }
    game.mouse_button_down_event(PointerButton::Left, on_button(0));
    assert_eq!(game.players[0].score, 8);
    assert_fresh_bag_counts(&game);
    assert_one_equals_each(&game);

    // The second player exchanges three tiles, then the first one passes.
    game.mouse_button_down_event(PointerButton::Left, nowhere());
    game.mouse_button_down_event(PointerButton::Left, on_button(1));
    for i in [0, 3, 5] {
        game.mouse_button_down_event(PointerButton::Left, on_hand(i));
    }
    game.mouse_button_down_event(PointerButton::Left, on_button(0));
    assert_fresh_bag_counts(&game);
    assert_one_equals_each(&game);
    game.mouse_button_down_event(PointerButton::Left, nowhere());
    game.mouse_button_down_event(PointerButton::Left, on_hand(2));
    game.mouse_button_up_event(PointerButton::Left, Some((8, 7)));
    game.mouse_button_down_event(PointerButton::Left, on_button(2));
    assert_fresh_bag_counts(&game);
    assert_one_equals_each(&game);
    assert!(game.board.letters[8][7].is_none());
}

#[test]
fn dropping_and_picking_up_again_restores_the_game() {
    let mut game = two_player_game();
    game.pick_up_tile_from_hand(4);
    let hand = game.players[0].hand.clone();
    assert!(game.put_tile_on_board(3, 3));
    assert!(game.pick_up_tile_from_board(3, 3));
    assert!(game.board.letters.iter().all(|row| row.iter().all(|c| c.is_none())));
    assert_eq!(game.players[0].hand, hand);
    match &game.player_action {
        PlayerAction::PlacingTiles(p) => assert!(p.tile_in_move.is_some()),
        _ => panic!(),
    }
}

#[test]
fn choosing_a_tile_twice_restores_the_choice() {
    let mut game = two_player_game();
    game.init_reroll();
    game.select_tile_in_hand(2);
    game.select_tile_in_hand(2);
    match &game.player_action {
        PlayerAction::Rerolling(r) => assert!(r.tiles_selected.iter().all(|b| !b)),
        _ => panic!(),
    }
}
