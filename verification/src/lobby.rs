use vstd::prelude::*;

use crate::consts::MAX_NAME_LEN;
use crate::input::PointerButton;
use crate::text::{decimal, is_control, pop_char, push_char, u64_to_string};

verus! {

/// A button of the lobby.
#[derive(Clone, Copy, PartialEq, Eq, Debug, Structural)]
pub enum ControlButton {
    AddPlayer,
    RemovePlayer(usize),
    StartGame,
}

/// What a click in the lobby is about.
#[derive(Clone, Copy, PartialEq, Eq, Debug, Structural)]
pub enum MouseAction {
    ControlButton(ControlButton),
    PlayerName(usize),
}

/// The keys the lobby reacts to.
#[derive(Clone, Copy, PartialEq, Eq, Debug, Structural)]
pub enum LobbyKey {
    Up,
    Down,
    Back,
    Other,
}

/// Where on the lobby screen the pointer is, as the drawing lays it out:
/// on the "Play" button, in the column of add/remove buttons (at the given
/// row), in the column of names (at the given row).
#[derive(Clone, Copy, PartialEq, Eq, Debug, Structural)]
pub struct LobbyTarget {
    pub on_play_button: bool,
    pub button_row: Option<usize>,
    pub name_row: Option<usize>,
}

/// The screen where players are added, removed and named before a game.
pub struct Lobby {
    pub player_names: Vec<String>,
    pub player_selected: usize,
    pub mouse_action: Option<MouseAction>,
    pub ready: bool,
}

/// The length of a text in UTF-8 bytes (what `str::len` gives).
pub open spec fn byte_len(s: Seq<char>) -> usize {
    vstd::utf8::encode_utf8(s).len() as usize
}

/// The name a new player gets: "Player" and its number, counting from one.
pub open spec fn default_name(i: int) -> Seq<char> {
    "Player "@ + decimal((i + 1) as nat)
}

/// The name of player `i` (counting from zero) before anyone types.
fn default_player_name(i: usize) -> (res: String)
    requires
        i < u64::MAX,
    ensures
        res@ == default_name(i as int),
{
    let mut s = String::from_str("Player ");
    let number = u64_to_string(i as u64 + 1);
    s.append(number.as_str());
    s
}

/// The action is one the lobby can carry out with `n` players.
pub open spec fn action_fits(a: Option<MouseAction>, n: int) -> bool {
    match a {
        Some(MouseAction::ControlButton(ControlButton::RemovePlayer(i))) => i < n && n > 1,
        Some(MouseAction::ControlButton(ControlButton::AddPlayer)) => n < 4,
        Some(MouseAction::PlayerName(i)) => i < n,
        _ => true,
    }
}

/// The button in the add/remove column at row `uy`, for `n` players: a
/// remove button beside every name (rows 0, 2, 4, 6), and below them an add
/// button while there are fewer than four players.
pub open spec fn spec_button_at_row(n: int, uy: int) -> Option<ControlButton> {
    if n == 1 {
        if uy == 2 {
            Some(ControlButton::AddPlayer)
        } else {
            None
        }
    } else if n == 4 {
        if uy % 2 == 0 && uy < 8 {
            Some(ControlButton::RemovePlayer((uy / 2) as usize))
        } else {
            None
        }
    } else if uy % 2 == 0 && uy < n + n {
        Some(ControlButton::RemovePlayer((uy / 2) as usize))
    } else if uy == n + n {
        Some(ControlButton::AddPlayer)
    } else {
        None
    }
}

/// The name at row `uy` of the name column, for `n` players.
pub open spec fn spec_name_at_row(n: int, uy: int) -> Option<MouseAction> {
    if uy == 0 {
        Some(MouseAction::PlayerName(0))
    } else if uy == 2 && n >= 2 {
        Some(MouseAction::PlayerName(1))
    } else if uy == 4 && n >= 3 {
        Some(MouseAction::PlayerName(2))
    } else if uy == 6 && n >= 4 {
        Some(MouseAction::PlayerName(3))
    } else {
        None
    }
}

impl Lobby {
    /// Between one and four players, one of them selected, and a pending
    /// click that can be carried out.
    pub open spec fn wf(&self) -> bool {
        &&& 1 <= self.player_names@.len() <= 4
        &&& self.player_selected < self.player_names@.len()
        &&& action_fits(self.mouse_action, self.player_names@.len() as int)
    }

    /// The names, as sequences of characters.
    pub open spec fn names(&self) -> Seq<Seq<char>> {
        Seq::new(self.player_names@.len(), |i: int| self.player_names@[i]@)
    }

    /// Two players, "Player 1" and "Player 2", the first selected.
    pub fn new() -> (l: Lobby)
        ensures
            l.names() == seq![default_name(0), default_name(1)],
            l.player_selected == 0,
            l.mouse_action is None,
            !l.ready,
            l.wf(),
    {
        let mut player_names: Vec<String> = Vec::new();
        player_names.push(default_player_name(0));
        player_names.push(default_player_name(1));
        let l = Lobby { player_names, player_selected: 0, mouse_action: None, ready: false };
        assert(l.names() =~= seq![default_name(0), default_name(1)]);
        l
    }

    /// The names, once the players have asked to start.
    pub fn ready(&self) -> (res: Option<Vec<String>>)
        ensures
            !self.ready ==> res is None,
            self.ready ==> (res matches Some(v) && Seq::new(v@.len(), |i: int| v@[i]@) == self.names()),
    {
        if self.ready {
            let mut v: Vec<String> = Vec::new();
            let mut i: usize = 0;
            while i < self.player_names.len()
                invariant
                    i <= self.player_names@.len(),
                    v@.len() == i,
                    forall|k: int| 0 <= k < i ==> (#[trigger] v@[k])@ == self.player_names@[k]@,
                decreases self.player_names@.len() - i,
            {
                v.push(self.player_names[i].clone());
                i += 1;
            }
            assert(Seq::new(v@.len(), |i: int| v@[i]@) =~= self.names());
            Some(v)
        } else {
            None
        }
    }

    /// Every name has at least one character.
    pub fn valid_names(&self) -> (res: bool)
        ensures
            res == forall|i: int| 0 <= i < self.player_names@.len() ==> (#[trigger] self.player_names@[i])@.len() > 0,
    {
        let mut i: usize = 0;
        while i < self.player_names.len()
            invariant
                i <= self.player_names@.len(),
                forall|k: int| 0 <= k < i ==> (#[trigger] self.player_names@[k])@.len() > 0,
            decreases self.player_names@.len() - i,
        {
            if self.player_names[i].as_str().is_empty() {
                return false;
            }
            i += 1;
        }
        true
    }

    /// The name of the selected player, to be edited.
    fn current_player(&mut self) -> (name: &mut String)
        requires
            old(self).player_selected < old(self).player_names@.len(),
        ensures
            *name == old(self).player_names@[old(self).player_selected as int],
            final(self).player_names@ == old(self).player_names@.update(
                old(self).player_selected as int,
                *final(name),
            ),
            final(self).player_selected == old(self).player_selected,
            final(self).mouse_action == old(self).mouse_action,
            final(self).ready == old(self).ready,
    {
        &mut self.player_names[self.player_selected]
    }

    pub fn select_player(&mut self, index: usize)
        ensures
            final(self).player_selected == index,
            final(self).player_names == old(self).player_names,
            final(self).mouse_action == old(self).mouse_action,
            final(self).ready == old(self).ready,
    {
        self.player_selected = index;
    }

    /// Adds a player with the default name and selects it.
    pub fn add_player(&mut self)
        requires
            old(self).player_names@.len() < u64::MAX,
        ensures
            final(self).player_names@.len() == old(self).player_names@.len() + 1,
            final(self).names() == old(self).names().push(default_name(old(self).player_names@.len() as int)),
            final(self).player_selected == old(self).player_names@.len(),
            final(self).mouse_action == old(self).mouse_action,
            final(self).ready == old(self).ready,
    {
        let i = self.player_names.len();
        self.player_names.push(default_player_name(i));
        self.player_selected = i;
        assert(self.names() =~= old(self).names().push(default_name(i as int)));
    }

    /// Removes player `index`; the selection moves up if it was at or below it.
    pub fn remove_player(&mut self, index: usize)
        requires
            index < old(self).player_names@.len(),
        ensures
            final(self).player_names@.len() == old(self).player_names@.len() - 1,
            final(self).names() == old(self).names().remove(index as int),
            final(self).player_selected == if old(self).player_selected >= index && old(
                self,
            ).player_selected > 0 {
                old(self).player_selected - 1
            } else {
                old(self).player_selected as int
            },
            final(self).mouse_action == old(self).mouse_action,
            final(self).ready == old(self).ready,
    {
        self.player_names.remove(index);
        if self.player_selected >= index && self.player_selected > 0 {
            self.player_selected -= 1;
        }
        assert(self.names() =~= old(self).names().remove(index as int));
    }

    /// Adds a character to the selected player's name, unless the name
    /// already has `MAX_NAME_LEN` bytes or more.
    pub fn add_character(&mut self, character: char)
        requires
            old(self).player_selected < old(self).player_names@.len(),
        ensures
            final(self).player_names@.len() == old(self).player_names@.len(),
            final(self).names() == if byte_len(old(self).player_names@[old(self).player_selected as int]@)
                < 16 {
                old(self).names().update(
                    old(self).player_selected as int,
                    old(self).names()[old(self).player_selected as int].push(character),
                )
            } else {
                old(self).names()
            },
            final(self).player_selected == old(self).player_selected,
            final(self).mouse_action == old(self).mouse_action,
            final(self).ready == old(self).ready,
    {
        let sel = self.player_selected;
        let name = self.current_player();
        if name.as_str().len() < MAX_NAME_LEN {
            push_char(name, character);
        }
        assert(self.names() =~= (if byte_len(old(self).player_names@[sel as int]@) < 16 {
            old(self).names().update(sel as int, old(self).names()[sel as int].push(character))
        } else {
            old(self).names()
        }));
    }

    /// Removes the last character of the selected player's name.
    pub fn remove_char(&mut self)
        requires
            old(self).player_selected < old(self).player_names@.len(),
        ensures
            final(self).player_names@.len() == old(self).player_names@.len(),
            final(self).names() == old(self).names().update(
                old(self).player_selected as int,
                if old(self).names()[old(self).player_selected as int].len() > 0 {
                    old(self).names()[old(self).player_selected as int].drop_last()
                } else {
                    old(self).names()[old(self).player_selected as int]
                },
            ),
            final(self).player_selected == old(self).player_selected,
            final(self).mouse_action == old(self).mouse_action,
            final(self).ready == old(self).ready,
    {
        let sel = self.player_selected;
        pop_char(self.current_player());
        assert(self.names() =~= old(self).names().update(
            sel as int,
            if old(self).names()[sel as int].len() > 0 {
                old(self).names()[sel as int].drop_last()
            } else {
                old(self).names()[sel as int]
            },
        ));
    }

    /// Selects the next player, from the last back to the first.
    pub fn next_player(&mut self)
        requires
            old(self).player_selected < usize::MAX,
        ensures
            final(self).player_selected == if old(self).player_selected + 1 == old(self).player_names@.len() {
                0
            } else {
                old(self).player_selected + 1
            },
            final(self).player_names == old(self).player_names,
            final(self).mouse_action == old(self).mouse_action,
            final(self).ready == old(self).ready,
    {
        self.player_selected += 1;
        if self.player_selected == self.player_names.len() {
            self.player_selected = 0;
        }
    }

    /// Selects the previous player, from the first to the last.
    pub fn prev_player(&mut self)
        requires
            old(self).player_selected == 0 ==> old(self).player_names@.len() > 0,
        ensures
            final(self).player_selected == if old(self).player_selected == 0 {
                old(self).player_names@.len() - 1
            } else {
                old(self).player_selected - 1
            },
            final(self).player_names == old(self).player_names,
            final(self).mouse_action == old(self).mouse_action,
            final(self).ready == old(self).ready,
    {
        if self.player_selected == 0 {
            self.player_selected = self.player_names.len() - 1;
        } else {
            self.player_selected -= 1;
        }
    }

    /// The add or remove button at row `uy` of the button column.
    pub fn button_at_row(&self, uy: usize) -> (res: Option<ControlButton>)
        ensures
            res == spec_button_at_row(self.player_names@.len() as int, uy as int),
    {
        let l = self.player_names.len();
        if l == 1 {
            if uy == 2 {
                Some(ControlButton::AddPlayer)
            } else {
                None
            }
        } else if l == 4 {
            if uy % 2 == 0 && uy < 8 {
                Some(ControlButton::RemovePlayer(uy / 2))
            } else {
                None
            }
        } else if uy % 2 == 0 && uy / 2 < l {
            Some(ControlButton::RemovePlayer(uy / 2))
        } else if uy % 2 == 0 && uy / 2 == l {
            Some(ControlButton::AddPlayer)
        } else {
            None
        }
    }

    /// The name at row `uy` of the name column.
    pub fn name_at_row(&self, uy: usize) -> (res: Option<MouseAction>)
        ensures
            res == spec_name_at_row(self.player_names@.len() as int, uy as int),
    {
        let l = self.player_names.len();
        if uy == 0 {
            Some(MouseAction::PlayerName(0))
        } else if uy == 2 && l >= 2 {
            Some(MouseAction::PlayerName(1))
        } else if uy == 4 && l >= 3 {
            Some(MouseAction::PlayerName(2))
        } else if uy == 6 && l >= 4 {
            Some(MouseAction::PlayerName(3))
        } else {
            None
        }
    }

    /// What a click at `target` is about: the "Play" button, else a button of
    /// the add/remove column, else a name.
    pub fn action_at(&self, target: LobbyTarget) -> (res: Option<MouseAction>)
        ensures
            res == (if target.on_play_button {
                Some(MouseAction::ControlButton(ControlButton::StartGame))
            } else {
                match (match target.button_row {
                    Some(uy) => spec_button_at_row(self.player_names@.len() as int, uy as int),
                    None => None,
                }) {
                    Some(b) => Some(MouseAction::ControlButton(b)),
                    None => match target.name_row {
                        Some(uy) => spec_name_at_row(self.player_names@.len() as int, uy as int),
                        None => None,
                    },
                }
            }),
            self.wf() ==> action_fits(res, self.player_names@.len() as int),
    {
        if target.on_play_button {
            return Some(MouseAction::ControlButton(ControlButton::StartGame));
        }
        let button = match target.button_row {
            Some(uy) => self.button_at_row(uy),
            None => None,
        };
        match button {
            Some(b) => Some(MouseAction::ControlButton(b)),
            None => match target.name_row {
                Some(uy) => self.name_at_row(uy),
                None => None,
            },
        }
    }

    /// A press of the left button remembers what it was on.
    pub fn mouse_button_down_event(&mut self, button: PointerButton, action: Option<MouseAction>)
        ensures
            final(self).mouse_action == if button == PointerButton::Left {
                action
            } else {
                old(self).mouse_action
            },
            final(self).player_names == old(self).player_names,
            final(self).player_selected == old(self).player_selected,
            final(self).ready == old(self).ready,
            old(self).wf() && action_fits(action, old(self).player_names@.len() as int) ==> final(self).wf(),
    {
        if button != PointerButton::Left {
            return;
        }
        self.mouse_action = action;
    }

    /// `new` is what carrying out `action` makes of `self`, the pending
    /// click aside.
    pub open spec fn after_action(&self, action: MouseAction, new: &Lobby) -> bool {
        match action {
            MouseAction::ControlButton(ControlButton::AddPlayer) => {
                &&& new.names() == self.names().push(default_name(self.player_names@.len() as int))
                &&& new.player_selected == self.player_names@.len()
                &&& new.ready == self.ready
            },
            MouseAction::ControlButton(ControlButton::RemovePlayer(i)) => {
                &&& new.names() == self.names().remove(i as int)
                &&& new.player_selected == if self.player_selected >= i && self.player_selected > 0 {
                    self.player_selected - 1
                } else {
                    self.player_selected as int
                }
                &&& new.ready == self.ready
            },
            MouseAction::ControlButton(ControlButton::StartGame) => {
                &&& new.names() == self.names()
                &&& new.player_selected == self.player_selected
                &&& new.ready == forall|k: int| 0 <= k < self.player_names@.len() ==> (#[trigger] self.player_names@[k])@.len() > 0
            },
            MouseAction::PlayerName(i) => {
                &&& new.names() == self.names()
                &&& new.player_selected == i
                &&& new.ready == self.ready
            },
        }
    }

    /// A release of the left button on what it was pressed on carries that
    /// action out: adding or removing a player, starting the game (if every
    /// name is non-empty) or selecting a name.
    pub fn mouse_button_up_event(&mut self, button: PointerButton, action: Option<MouseAction>)
        requires
            button == PointerButton::Left && old(self).mouse_action == action ==> match action {
                Some(MouseAction::ControlButton(ControlButton::RemovePlayer(i))) => i < old(
                    self,
                ).player_names@.len(),
                Some(MouseAction::ControlButton(ControlButton::AddPlayer)) => old(self).player_names@.len()
                    < u64::MAX,
                _ => true,
            },
        ensures
            button != PointerButton::Left ==> *final(self) == *old(self),
            button == PointerButton::Left ==> final(self).mouse_action is None,
            button == PointerButton::Left ==> match (old(self).mouse_action, action) {
                (Some(a), Some(b)) if a == b => old(self).after_action(a, &*final(self)),
                _ => {
                    &&& final(self).player_names == old(self).player_names
                    &&& final(self).player_selected == old(self).player_selected
                    &&& final(self).ready == old(self).ready
                },
            },
            old(self).wf() ==> final(self).wf(),
    {
        if button != PointerButton::Left {
            return;
        }
        let same = match (self.mouse_action, action) {
            (None, None) => true,
            (Some(a), Some(b)) => a == b,
            _ => false,
        };
        if same {
            if let Some(action) = self.mouse_action {
                match action {
                    MouseAction::ControlButton(button) => match button {
                        ControlButton::AddPlayer => self.add_player(),
                        ControlButton::RemovePlayer(index) => self.remove_player(index),
                        ControlButton::StartGame => self.ready = self.valid_names(),
                    },
                    MouseAction::PlayerName(index) => self.select_player(index),
                }
            }
        }
        self.mouse_action = None;
    }

    /// Typed text goes to the selected name; control characters are ignored.
    pub fn text_input_event(&mut self, character: char)
        requires
            old(self).player_selected < old(self).player_names@.len(),
        ensures
            old(self).wf() ==> final(self).wf(),
            final(self).names() == if !(character as u32 <= 0x1f || (0x7f <= character as u32 && character as u32
                <= 0x9f)) && byte_len(old(self).player_names@[old(self).player_selected as int]@) < 16 {
                old(self).names().update(
                    old(self).player_selected as int,
                    old(self).names()[old(self).player_selected as int].push(character),
                )
            } else {
                old(self).names()
            },
    {
        if !is_control(character) {
            self.add_character(character)
        }
    }

    /// Up and Down move the selection, Backspace removes a character.
    pub fn key_down_event(&mut self, key: LobbyKey)
        requires
            match key {
                LobbyKey::Up => old(self).player_selected == 0 ==> old(self).player_names@.len() > 0,
                LobbyKey::Down => old(self).player_selected < usize::MAX,
                LobbyKey::Back => old(self).player_selected < old(self).player_names@.len(),
                LobbyKey::Other => true,
            },
        ensures
            old(self).wf() ==> final(self).wf(),
            key == LobbyKey::Up ==> final(self).player_selected == if old(self).player_selected == 0 {
                old(self).player_names@.len() - 1
            } else {
                old(self).player_selected - 1
            },
            key == LobbyKey::Down ==> final(self).player_selected == if old(self).player_selected + 1
                == old(self).player_names@.len() {
                0
            } else {
                old(self).player_selected + 1
            },
            key == LobbyKey::Other ==> *final(self) == *old(self),
    {
        match key {
            LobbyKey::Up => self.prev_player(),
            LobbyKey::Down => self.next_player(),
            LobbyKey::Back => self.remove_char(),
            LobbyKey::Other => {},
        }
    }
}

} // verus!
