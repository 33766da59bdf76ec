pub mod active_game;
pub mod board;
pub mod consts;
pub mod conservation;
pub mod expression;
pub mod highscores;
pub mod input;
pub mod lobby;
pub mod rational;
pub mod summary;
pub mod text;
pub mod tiles;
