use math_scrabble::input::PointerButton;
use math_scrabble::lobby::{ControlButton, Lobby, LobbyKey, LobbyTarget, MouseAction};

fn click(lobby: &mut Lobby, action: Option<MouseAction>) {
    lobby.mouse_button_down_event(PointerButton::Left, action);
    lobby.mouse_button_up_event(PointerButton::Left, action);
}

#[test]
fn a_new_lobby_has_two_players() {
    let lobby = Lobby::new();
    assert_eq!(lobby.player_names, vec!["Player 1".to_string(), "Player 2".to_string()]);
    assert_eq!(lobby.player_selected, 0);
    assert!(lobby.ready().is_none());
}

#[test]
fn typing_edits_the_selected_name() {
    let mut lobby = Lobby::new();
    lobby.key_down_event(LobbyKey::Down);
    assert_eq!(lobby.player_selected, 1);
    lobby.text_input_event('!');
    assert_eq!(lobby.player_names[1], "Player 2!");
    lobby.key_down_event(LobbyKey::Back);
    lobby.key_down_event(LobbyKey::Back);
    assert_eq!(lobby.player_names[1], "Player ");
    // Control characters are not typed.
    lobby.text_input_event('\u{8}');
    lobby.text_input_event('\n');
    assert_eq!(lobby.player_names[1], "Player ");
    // Selection wraps around both ways.
    lobby.key_down_event(LobbyKey::Down);
    assert_eq!(lobby.player_selected, 0);
    lobby.key_down_event(LobbyKey::Up);
    assert_eq!(lobby.player_selected, 1);
    lobby.key_down_event(LobbyKey::Other);
    assert_eq!(lobby.player_selected, 1);
}

#[test]
fn names_are_limited_to_sixteen_bytes() {
    let mut lobby = Lobby::new();
    for _ in 0..20 {
        lobby.text_input_event('x');
    }
    assert_eq!(lobby.player_names[0], "Player 1xxxxxxxx");
    assert_eq!(lobby.player_names[0].len(), 16);
    let mut lobby = Lobby::new();
    for _ in 0..10 {
        lobby.text_input_event('é');
    }
    // Each 'é' takes two bytes: typing stops once 16 bytes are reached.
    assert_eq!(lobby.player_names[0], "Player 1éééé");
}

#[test]
fn adding_and_removing_players() {
    let mut lobby = Lobby::new();
    click(&mut lobby, Some(MouseAction::ControlButton(ControlButton::AddPlayer)));
    assert_eq!(lobby.player_names.len(), 3);
    assert_eq!(lobby.player_names[2], "Player 3");
    assert_eq!(lobby.player_selected, 2);
    click(&mut lobby, Some(MouseAction::ControlButton(ControlButton::RemovePlayer(0))));
    assert_eq!(lobby.player_names, vec!["Player 2".to_string(), "Player 3".to_string()]);
    assert_eq!(lobby.player_selected, 1);
    click(&mut lobby, Some(MouseAction::PlayerName(0)));
    assert_eq!(lobby.player_selected, 0);
}

#[test]
fn a_click_counts_only_where_it_started() {
    let mut lobby = Lobby::new();
    lobby.mouse_button_down_event(PointerButton::Left, Some(MouseAction::ControlButton(ControlButton::AddPlayer)));
    lobby.mouse_button_up_event(PointerButton::Left, Some(MouseAction::PlayerName(1)));
    assert_eq!(lobby.player_names.len(), 2);
    assert_eq!(lobby.player_selected, 0);
    assert!(lobby.mouse_action.is_none());
    lobby.mouse_button_down_event(PointerButton::Right, Some(MouseAction::PlayerName(1)));
    lobby.mouse_button_up_event(PointerButton::Right, Some(MouseAction::PlayerName(1)));
    assert_eq!(lobby.player_selected, 0);
}

#[test]
fn starting_needs_every_name() {
    let mut lobby = Lobby::new();
    for _ in 0..8 {
        lobby.key_down_event(LobbyKey::Back);
    }
    assert_eq!(lobby.player_names[0], "");
    click(&mut lobby, Some(MouseAction::ControlButton(ControlButton::StartGame)));
    assert!(lobby.ready().is_none());
    lobby.text_input_event('Z');
    click(&mut lobby, Some(MouseAction::ControlButton(ControlButton::StartGame)));
    assert_eq!(lobby.ready(), Some(vec!["Z".to_string(), "Player 2".to_string()]));
}

#[test]
fn what_a_click_is_on() {
    let lobby = Lobby::new();
    let target = |on_play_button, button_row, name_row| LobbyTarget { on_play_button, button_row, name_row };
    assert_eq!(
        lobby.action_at(target(true, Some(0), None)),
        Some(MouseAction::ControlButton(ControlButton::StartGame))
    );
    assert_eq!(
        lobby.action_at(target(false, Some(2), None)),
        Some(MouseAction::ControlButton(ControlButton::RemovePlayer(1)))
    );
    assert_eq!(
        lobby.action_at(target(false, Some(4), None)),
        Some(MouseAction::ControlButton(ControlButton::AddPlayer))
    );
    assert_eq!(lobby.action_at(target(false, Some(1), Some(2))), Some(MouseAction::PlayerName(1)));
    assert_eq!(lobby.action_at(target(false, None, Some(4))), None);
    assert_eq!(lobby.button_at_row(6), None);
    assert_eq!(lobby.name_at_row(0), Some(MouseAction::PlayerName(0)));
}

#[test]
fn one_player_has_no_remove_button_and_four_have_no_add_button() {
    let mut lobby = Lobby::new();
    lobby.remove_player(1);
    assert_eq!(lobby.button_at_row(0), None);
    assert_eq!(lobby.button_at_row(2), Some(ControlButton::AddPlayer));
    lobby.add_player();
    lobby.add_player();
    lobby.add_player();
    assert_eq!(lobby.player_names.len(), 4);
    assert_eq!(lobby.button_at_row(6), Some(ControlButton::RemovePlayer(3)));
    assert_eq!(lobby.button_at_row(8), None);
    assert!(lobby.valid_names());
}
