# math_scrabble

Math scrabble is a board game for one to four players: instead of words,
players lay out equations such as `12/4=3` with digit, operator and equals
tiles on a 15×15 board with bonus squares.

The crate is split in two:

- `src/` is the game's logic, verified with Verus: the tiles and the bag,
  the evaluation of expressions with exact fractions, checking and scoring a
  move on the board, the game itself (turns, passing, exchanging tiles), the
  lobby where players are named, the summary after a game, and the
  highscores table with the text of its file. Every public function states
  what it does in its contract, and the laws of the game (such as every
  player always holding exactly one equals sign) are proved as lemmas.
- `app/` is the window around it, written with `ggez`: drawing, turning
  pointer positions into squares and buttons, reading and writing the
  highscores file, and logging.

Modules of the library:

| module        | contents                                                      |
|---------------|---------------------------------------------------------------|
| `tiles`       | digits, operators, tiles and their scores, the initial bag    |
| `rational`    | fractions through `num`'s `Ratio<i64>`                        |
| `expression`  | evaluating an expression with operator precedence             |
| `board`       | the board, equations on it, checking and scoring a move       |
| `active_game` | a game being played, its events and its invariants            |
| `lobby`       | naming the players before a game                              |
| `summary`     | ranking the results and offering them highscores              |
| `highscores`  | the table of best scores and its file format                  |
| `input`       | the mouse buttons the screens tell apart                      |
| `text`        | character and number formatting used by the above             |
| `consts`      | board size, bonus squares and other constants                 |
